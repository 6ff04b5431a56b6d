//! Payloads by sequence number.

use std::collections::HashMap;
use vstd::prelude::*;

verus! {

broadcast use vstd::std_specs::hash::group_hash_axioms;

/// Payloads by sequence number.
pub struct PayloadStore {
    inner: HashMap<u32, Vec<u8>>,
}

impl View for PayloadStore {
    type V = Map<u32, Seq<u8>>;

    closed spec fn view(&self) -> Map<u32, Seq<u8>> {
        self.inner@.map_values(|v: Vec<u8>| v@)
    }
}

/// The members of `s` below `n`, in order.
pub open spec fn members_below(s: Set<u32>, n: nat) -> Seq<u32>
    decreases n,
{
    if n == 0 {
        Seq::empty()
    } else {
        let rest = members_below(s, (n - 1) as nat);
        if n - 1 <= u32::MAX && s.contains((n - 1) as u32) {
            rest.push((n - 1) as u32)
        } else {
            rest
        }
    }
}

/// All members of `s`, in order.
pub open spec fn ascending(s: Set<u32>) -> Seq<u32> {
    members_below(s, 0x1_0000_0000)
}

/// Every member comes before those that follow it and is smaller.
pub open spec fn increasing(v: Seq<u32>) -> bool {
    forall|i: int, j: int| 0 <= i < j < v.len() ==> v[i] < v[j]
}

/// `sort_unstable` on a vector of numbers: the same numbers in ascending order.
#[verifier::external_body]
fn sort_numbers(v: &mut Vec<u32>)
    ensures
        final(v)@.to_multiset() == old(v)@.to_multiset(),
        forall|i: int, j: int| 0 <= i < j < final(v)@.len() ==> final(v)@[i] <= final(v)@[j],
{
    v.sort_unstable();
}

/// What `members_below` holds, and in what order.
pub proof fn lemma_members_below(s: Set<u32>, n: nat)
    requires
        n <= 0x1_0000_0000,
    ensures
        increasing(members_below(s, n)),
        forall|x: u32| #[trigger] members_below(s, n).contains(x) <==> x < n && s.contains(x),
    decreases n,
{
    if n > 0 {
        let m = (n - 1) as nat;
        lemma_members_below(s, m);
        let rest = members_below(s, m);
        let all = members_below(s, n);
        let t = (n - 1) as u32;
        assert forall|x: u32| #[trigger] all.contains(x) <==> x < n && s.contains(x) by {
            assert(rest.contains(x) <==> x < m && s.contains(x));
            if s.contains(t) {
                assert(all == rest.push(t));
                assert(all.last() == t);
                if rest.contains(x) {
                    let i = choose|i: int| 0 <= i < rest.len() && rest[i] == x;
                    assert(all[i] == x);
                }
            }
        }
        assert forall|i: int, j: int| 0 <= i < j < all.len() implies all[i] < all[j] by {
            if j == rest.len() {
                assert(rest.contains(rest[i]));
            }
        }
    }
}

/// There is one increasing list of the members of a set.
pub proof fn lemma_increasing_unique(a: Seq<u32>, b: Seq<u32>)
    requires
        increasing(a),
        increasing(b),
        forall|x: u32| #[trigger] a.contains(x) <==> b.contains(x),
    ensures
        a == b,
    decreases a.len(),
{
    if a.len() == 0 {
        if b.len() > 0 {
            assert(b.contains(b[0]));
            assert(a.contains(b[0]));
        }
        assert(a =~= b);
    } else {
        assert(a.contains(a.last()));
        assert(b.contains(a.last()));
        assert(b.contains(b.last()));
        assert(a.contains(b.last()));
        assert(a.last() == b.last());
        let c = a.drop_last();
        let d = b.drop_last();
        assert forall|x: u32| #[trigger] c.contains(x) <==> d.contains(x) by {
            if c.contains(x) {
                let i = choose|i: int| 0 <= i < c.len() && c[i] == x;
                assert(a[i] == x);
                assert(a.contains(x));
                assert(b.contains(x));
                let j = choose|j: int| 0 <= j < b.len() && b[j] == x;
                assert(j != b.len() - 1);
                assert(d[j] == x);
            }
            if d.contains(x) {
                let i = choose|i: int| 0 <= i < d.len() && d[i] == x;
                assert(b[i] == x);
                assert(b.contains(x));
                assert(a.contains(x));
                let j = choose|j: int| 0 <= j < a.len() && a[j] == x;
                assert(j != a.len() - 1);
                assert(c[j] == x);
            }
        }
        lemma_increasing_unique(c, d);
        assert(a =~= c.push(a.last()));
        assert(b =~= d.push(b.last()));
    }
}

/// The keys of a map in the order in which it is walked.
pub(crate) fn keys_of<V>(m: &HashMap<u32, V>) -> (out: Vec<u32>)
    ensures
        out@.no_duplicates(),
        forall|x: u32| #[trigger] out@.contains(x) <==> m@.contains_key(x),
{
    let keys = m.keys();
    let ghost all = vstd::std_specs::hash::into_iter_keys(keys);
    let ghost dom = m@.dom();
    assert(all.to_set() == dom);
    assert(all.no_duplicates());
    let mut out: Vec<u32> = Vec::new();
    for seq in it: keys
        invariant
            it.seq().unref() == all,
            out@ == all.take(it.index() as int),
    {
        out.push(*seq);
    }
    proof {
        assert(out@ =~= all);
        assert forall|x: u32| #[trigger] out@.contains(x) <==> m@.contains_key(x) by {
            assert(all.to_set().contains(x) <==> all.contains(x));
            assert(m@.contains_key(x) <==> dom.contains(x));
        }
    }
    out
}

/// Sorts a list of the members of a set.
pub(crate) fn sort_members(list: Vec<u32>, Ghost(dom): Ghost<Set<u32>>) -> (out: Vec<u32>)
    requires
        list@.no_duplicates(),
        forall|x: u32| #[trigger] list@.contains(x) <==> dom.contains(x),
    ensures
        out@ == ascending(dom),
{
    let mut out: Vec<u32> = list;
    let ghost walked = out@;
    sort_numbers(&mut out);
    proof {
        walked.lemma_multiset_has_no_duplicates();
        assert forall|x: u32| out@.to_multiset().contains(x) implies out@.to_multiset().count(x)
            == 1 by {
            assert(walked.to_multiset().contains(x));
        }
        out@.lemma_multiset_has_no_duplicates_conv();
        assert forall|x: u32| #[trigger] out@.contains(x) <==> dom.contains(x) by {
            out@.to_multiset_ensures();
            walked.to_multiset_ensures();
            assert(out@.contains(x) <==> out@.to_multiset().count(x) > 0);
            assert(walked.contains(x) <==> walked.to_multiset().count(x) > 0);
            assert(walked.contains(x) <==> dom.contains(x));
        }
        lemma_members_below(dom, 0x1_0000_0000);
        assert forall|x: u32| #[trigger] out@.contains(x) <==> ascending(dom).contains(x) by {
            assert(out@.contains(x) <==> dom.contains(x));
        }
        lemma_increasing_unique(out@, ascending(dom));
    }
    out
}

impl PayloadStore {
    pub fn new() -> (s: Self)
        ensures
            s@ == Map::<u32, Seq<u8>>::empty(),
    {
        let s = PayloadStore { inner: HashMap::new() };
        proof {
            assert(s@ =~= Map::<u32, Seq<u8>>::empty());
        }
        s
    }

    /// Puts a payload in place of the one under the same number, if there is one.
    pub fn insert(&mut self, seq: u32, payload: Vec<u8>)
        ensures
            final(self)@ == old(self)@.insert(seq, payload@),
    {
        let ghost before = self@;
        self.inner.insert(seq, payload);
        proof {
            assert(self@ =~= before.insert(seq, payload@));
        }
    }

    pub fn contains(&self, seq: u32) -> (b: bool)
        ensures
            b == self@.contains_key(seq),
    {
        self.inner.contains_key(&seq)
    }

    pub fn get(&self, seq: u32) -> (r: Option<&Vec<u8>>)
        ensures
            match r {
                Some(p) => self@.contains_key(seq) && self@[seq] == p@,
                None => !self@.contains_key(seq),
            },
    {
        self.inner.get(&seq)
    }

    /// Takes all payloads out.
    pub fn clear(&mut self)
        ensures
            final(self)@ == Map::<u32, Seq<u8>>::empty(),
    {
        self.inner.clear();
        proof {
            assert(self@ =~= Map::<u32, Seq<u8>>::empty());
        }
    }

    /// The sequence numbers in ascending order.
    pub fn sorted_seqs(&self) -> (out: Vec<u32>)
        ensures
            out@ == ascending(self@.dom()),
    {
        let ghost dom = self.inner@.dom();
        proof {
            assert(self@.dom() =~= dom);
        }
        sort_members(keys_of(&self.inner), Ghost(dom))
    }

    /// The highest sequence number, zero if there is none.
    pub fn highest_seq(&self) -> (n: u32)
        ensures
            forall|x: u32| #[trigger] self@.contains_key(x) ==> x <= n,
            n > 0 ==> self@.contains_key(n),
    {
        let seqs: Vec<u32> = keys_of(&self.inner);
        let mut n: u32 = 0;
        let mut i: usize = 0;
        while i < seqs.len()
            invariant
                i <= seqs@.len(),
                forall|j: int| 0 <= j < i ==> seqs@[j] <= n,
                n > 0 ==> seqs@.contains(n),
            decreases seqs@.len() - i,
        {
            if seqs[i] > n {
                n = seqs[i];
                assert(seqs@[i as int] == n);
            }
            i = i + 1;
        }
        proof {
            assert forall|x: u32| #[trigger] self@.contains_key(x) implies x <= n by {
                assert(self.inner@.contains_key(x));
                assert(seqs@.contains(x));
            }
            if n > 0 {
                assert(seqs@.contains(n));
                assert(self.inner@.contains_key(n));
            }
        }
        n
    }
}

} // verus!
