//! Stitching of point sequences that share an endpoint into maximal chains.

use vstd::prelude::*;
use vstd::std_specs::cmp::PartialEqSpec;

verus! {

/// How a fragment attaches to a chain.
#[derive(Clone, Copy, Debug, PartialEq, Eq, Structural)]
pub enum Connection {
    /// The fragment starts where the chain ends.
    Tail,
    /// The fragment ends where the chain starts.
    Head,
    /// The fragment ends where the chain ends.
    ReverseTail,
    /// The fragment starts where the chain starts.
    ReverseHead,
}

/// The rows of a nested vector as sequences.
pub open spec fn rows<T>(v: Seq<Vec<T>>) -> Seq<Seq<T>> {
    v.map_values(|row: Vec<T>| row@)
}

/// The way `list` attaches to `chain`, if it does. The four cases are tried
/// in a fixed order; an empty chain or an empty fragment never attaches.
pub open spec fn joins<T: PartialEq>(chain: Seq<T>, list: Seq<T>) -> Option<Connection> {
    if chain.len() == 0 || list.len() == 0 {
        None
    } else if chain.last().eq_spec(&list.first()) {
        Some(Connection::Tail)
    } else if chain.first().eq_spec(&list.last()) {
        Some(Connection::Head)
    } else if chain.last().eq_spec(&list.last()) {
        Some(Connection::ReverseTail)
    } else if chain.first().eq_spec(&list.first()) {
        Some(Connection::ReverseHead)
    } else {
        None
    }
}

/// The chain after `list` was attached by `connection`. The shared point is
/// kept once.
pub open spec fn attach<T>(chain: Seq<T>, list: Seq<T>, connection: Connection) -> Seq<T>
    recommends
        list.len() > 0,
{
    match connection {
        Connection::Tail => chain + list.subrange(1, list.len() as int),
        Connection::Head => list.subrange(0, list.len() - 1) + chain,
        Connection::ReverseTail => chain + list.subrange(0, list.len() - 1).reverse(),
        Connection::ReverseHead => list.subrange(1, list.len() as int).reverse() + chain,
    }
}

/// The index of the first chain that `list` attaches to.
pub open spec fn first_match<T: PartialEq>(chains: Seq<Seq<T>>, list: Seq<T>) -> Option<int>
    decreases chains.len(),
{
    if chains.len() == 0 {
        None
    } else {
        match first_match(chains.drop_last(), list) {
            Some(i) => Some(i),
            None => if joins(chains.last(), list).is_some() {
                Some(chains.len() - 1)
            } else {
                None
            },
        }
    }
}

/// The chains after one more fragment: it extends the first chain that it
/// attaches to, or becomes a new chain at the end.
pub open spec fn chain_one<T: PartialEq>(chains: Seq<Seq<T>>, list: Seq<T>) -> Seq<Seq<T>> {
    match first_match(chains, list) {
        Some(i) => chains.update(i, attach(chains[i], list, joins(chains[i], list).unwrap())),
        None => chains.push(list),
    }
}

/// One pass over the fragments in their order, starting with no chain.
pub open spec fn chain_spec<T: PartialEq>(lists: Seq<Seq<T>>) -> Seq<Seq<T>>
    decreases lists.len(),
{
    if lists.len() == 0 {
        Seq::empty()
    } else {
        chain_one(chain_spec(lists.drop_last()), lists.last())
    }
}

/// Passes repeated until one of them leaves the number of chains unchanged.
pub open spec fn merge_spec<T: PartialEq>(lists: Seq<Seq<T>>) -> Seq<Seq<T>>
    decreases lists.len(),
{
    let next = chain_spec(lists);
    if next.len() < lists.len() {
        merge_spec(next)
    } else {
        next
    }
}

/// `first_match` finds the least index whose chain the fragment attaches to.
pub proof fn lemma_first_match<T: PartialEq>(chains: Seq<Seq<T>>, list: Seq<T>)
    ensures
        match first_match(chains, list) {
            Some(i) => {
                &&& 0 <= i < chains.len()
                &&& joins(chains[i], list).is_some()
                &&& forall|j: int| 0 <= j < i ==> joins(#[trigger] chains[j], list).is_none()
            },
            None => forall|j: int| 0 <= j < chains.len() ==> joins(#[trigger] chains[j], list).is_none(),
        },
    decreases chains.len(),
{
    if chains.len() > 0 {
        lemma_first_match(chains.drop_last(), list);
        assert(forall|j: int| 0 <= j < chains.len() - 1 ==> chains.drop_last()[j] == chains[j]);
    }
}

/// A pass never yields more chains than it was given fragments, and at
/// least one chain where there is a fragment. So repeated passes come to an
/// end.
pub proof fn lemma_chain_len<T: PartialEq>(lists: Seq<Seq<T>>)
    ensures
        chain_spec(lists).len() <= lists.len(),
        lists.len() > 0 ==> chain_spec(lists).len() > 0,
    decreases lists.len(),
{
    if lists.len() > 0 {
        lemma_chain_len(lists.drop_last());
        lemma_first_match(chain_spec(lists.drop_last()), lists.last());
    }
}

/// In-place growth of a vector at its front, and reversed at either end.
pub trait Prependable<T> {
    /// Puts `other` in front, in its own order.
    fn prepend(&mut self, other: &[T])
        ensures
            final(self).content() == other@ + old(self).content(),
    ;

    /// Puts `other` in front, last element first.
    fn reverse_prepend(&mut self, other: &[T])
        ensures
            final(self).content() == other@.reverse() + old(self).content(),
    ;

    /// Puts `other` behind, last element first.
    fn reverse_extend(&mut self, other: &[T])
        ensures
            final(self).content() == old(self).content() + other@.reverse(),
    ;

    /// The elements held, in order.
    spec fn content(&self) -> Seq<T>;
}

impl<T: Copy> Prependable<T> for Vec<T> {
    open spec fn content(&self) -> Seq<T> {
        self@
    }

    fn prepend(&mut self, other: &[T]) {
        let n: usize = other.len();
        let mut k: usize = n;
        while k > 0
            invariant
                n == other@.len(),
                k <= n,
                self@ == other@.subrange(k as int, n as int) + old(self)@,
            decreases k,
        {
            k = k - 1;
            self.insert(0, other[k]);
            assert(self@ =~= other@.subrange(k as int, n as int) + old(self)@);
        }
        assert(other@.subrange(0, n as int) =~= other@);
    }

    fn reverse_prepend(&mut self, other: &[T]) {
        let n: usize = other.len();
        let mut k: usize = 0;
        while k < n
            invariant
                n == other@.len(),
                k <= n,
                self@ == other@.subrange(0, k as int).reverse() + old(self)@,
            decreases n - k,
        {
            self.insert(0, other[k]);
            k = k + 1;
            assert(self@ =~= other@.subrange(0, k as int).reverse() + old(self)@);
        }
        assert(other@.subrange(0, n as int) =~= other@);
    }

    fn reverse_extend(&mut self, other: &[T]) {
        let n: usize = other.len();
        let mut k: usize = n;
        while k > 0
            invariant
                n == other@.len(),
                k <= n,
                self@ == old(self)@ + other@.subrange(k as int, n as int).reverse(),
            decreases k,
        {
            k = k - 1;
            self.push(other[k]);
            assert(self@ =~= old(self)@ + other@.subrange(k as int, n as int).reverse());
        }
        assert(other@.subrange(0, n as int) =~= other@);
    }
}

/// Tests how `list` attaches to `chain`.
pub fn connect<T: Copy + PartialEq>(chain: &Vec<T>, list: &Vec<T>) -> (connection: Option<Connection>)
    ensures
        T::obeys_eq_spec() ==> connection == joins(chain@, list@),
        chain@.len() == 0 || list@.len() == 0 ==> connection.is_none(),
{
    if chain.len() == 0 || list.len() == 0 {
        return None;
    }
    let list_first = list[0];
    let list_last = list[list.len() - 1];
    let chain_first = chain[0];
    let chain_last = chain[chain.len() - 1];
    if chain_last == list_first {
        Some(Connection::Tail)
    } else if chain_first == list_last {
        Some(Connection::Head)
    } else if chain_last == list_last {
        Some(Connection::ReverseTail)
    } else if chain_first == list_first {
        Some(Connection::ReverseHead)
    } else {
        None
    }
}

/// Attaches `list` to `chain` in place.
pub fn extend_chain<T: Copy>(chain: &mut Vec<T>, list: &Vec<T>, connection: Connection)
    requires
        list@.len() > 0,
    ensures
        final(chain)@ == attach(old(chain)@, list@, connection),
{
    let n: usize = list.len();
    match connection {
        Connection::Tail => {
            let rest = vstd::slice::slice_subrange(list.as_slice(), 1, n);
            let ghost before = chain@;
            let mut k: usize = 0;
            while k < rest.len()
                invariant
                    k <= rest@.len(),
                    chain@ == before + rest@.subrange(0, k as int),
                decreases rest@.len() - k,
            {
                chain.push(rest[k]);
                k = k + 1;
                assert(chain@ =~= before + rest@.subrange(0, k as int));
            }
            assert(rest@.subrange(0, rest@.len() as int) =~= rest@);
        },
        Connection::Head => {
            chain.prepend(vstd::slice::slice_subrange(list.as_slice(), 0, n - 1));
        },
        Connection::ReverseTail => {
            chain.reverse_extend(vstd::slice::slice_subrange(list.as_slice(), 0, n - 1));
        },
        Connection::ReverseHead => {
            chain.reverse_prepend(vstd::slice::slice_subrange(list.as_slice(), 1, n));
        },
    }
}

/// One pass of chaining: each fragment, in order, extends the first chain
/// built so far that it attaches to, or starts a new chain. The fragments
/// themselves are left as they were.
pub fn chain<T: Copy + PartialEq>(chainable: &mut Vec<Vec<T>>) -> (chains: Vec<Vec<T>>)
    ensures
        *final(chainable) == *old(chainable),
        T::obeys_eq_spec() ==> rows(chains@) == chain_spec(rows(old(chainable)@)),
        chains@.len() <= old(chainable)@.len(),
{
    let mut chains: Vec<Vec<T>> = Vec::new();
    let ghost lists = rows(chainable@);
    let mut k: usize = 0;
    while k < chainable.len()
        invariant
            *chainable == *old(chainable),
            lists == rows(chainable@),
            k <= chainable@.len(),
            chains@.len() <= k,
            T::obeys_eq_spec() ==> rows(chains@) == chain_spec(lists.take(k as int)),
        decreases chainable@.len() - k,
    {
        let list = &chainable[k];
        let ghost built = rows(chains@);
        let mut found: Option<(usize, Connection)> = None;
        let mut i: usize = 0;
        while i < chains.len() && found.is_none()
            invariant
                i <= chains@.len(),
                built == rows(chains@),
                match found {
                    Some((at, connection)) => {
                        &&& at < chains@.len()
                        &&& list@.len() > 0
                        &&& T::obeys_eq_spec() ==> first_match(built, list@) == Some(at as int)
                        &&& T::obeys_eq_spec() ==> joins(built[at as int], list@) == Some(connection)
                    },
                    None => T::obeys_eq_spec() ==> forall|j: int|
                        0 <= j < i ==> joins(#[trigger] built[j], list@).is_none(),
                },
            decreases chains@.len() - i + if found.is_none() { 1int } else { 0int },
        {
            match connect(&chains[i], list) {
                Some(connection) => {
                    proof {
                        if T::obeys_eq_spec() {
                            lemma_first_match(built, list@);
                        }
                    }
                    found = Some((i, connection));
                },
                None => {
                    i = i + 1;
                },
            }
        }
        proof {
            if T::obeys_eq_spec() {
                lemma_first_match(built, list@);
                assert(lists.take(k as int + 1).drop_last() =~= lists.take(k as int));
                assert(lists.take(k as int + 1).last() == list@);
            }
        }
        match found {
            Some((at, connection)) => {
                extend_chain(&mut chains[at], list, connection);
                assert(rows(chains@) =~= built.update(
                    at as int,
                    attach(built[at as int], list@, connection),
                ));
            },
            None => {
                chains.push(vstd::slice::slice_to_vec(list.as_slice()));
                assert(rows(chains@) =~= built.push(list@));
            },
        }
        k = k + 1;
    }
    assert(lists.take(k as int) =~= lists);
    chains
}

/// Collections of point sequences that can be merged into maximal chains.
pub trait Chainable<T> {
    /// Replaces the fragments by the chains they form.
    fn merge(&mut self);
}

impl<T: Copy + PartialEq> Chainable<T> for Vec<Vec<T>> {
    /// Chains the fragments pass after pass until a pass leaves the number
    /// of chains unchanged.
    fn merge(&mut self)
        ensures
            T::obeys_eq_spec() ==> rows(final(self)@) == merge_spec(rows(old(self)@)),
            final(self)@.len() <= old(self)@.len(),
    {
        loop
            invariant_except_break
                T::obeys_eq_spec() ==> merge_spec(rows(self@)) == merge_spec(rows(old(self)@)),
            invariant
                self@.len() <= old(self)@.len(),
            ensures
                self@.len() <= old(self)@.len(),
                T::obeys_eq_spec() ==> rows(self@) == merge_spec(rows(old(self)@)),
            decreases self@.len(),
        {
            let vec_size: usize = self.len();
            let chains = chain(self);
            *self = chains;
            if self.len() == vec_size {
                break;
            }
        }
    }
}

} // verus!
