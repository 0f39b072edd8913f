use vstd::prelude::*;
use crate::error::CordError;
use crate::ser::{encode_unsigned_spec, CordSerializer};

verus! {

/// `a` sorts strictly before `b`, comparing from index `i` on: bytewise,
/// and a proper prefix first.
pub open spec fn lex_lt_from(a: Seq<u8>, b: Seq<u8>, i: nat) -> bool
    decreases a.len() - i,
{
    if i >= a.len() {
        i < b.len()
    } else if i >= b.len() {
        false
    } else if a[i as int] != b[i as int] {
        a[i as int] < b[i as int]
    } else {
        lex_lt_from(a, b, i + 1)
    }
}

/// `a` sorts strictly before `b` in byte-lexicographic order.
pub open spec fn lex_lt(a: Seq<u8>, b: Seq<u8>) -> bool {
    lex_lt_from(a, b, 0)
}

/// Every element sorts strictly before every later one.
pub open spec fn strictly_sorted(s: Seq<Seq<u8>>) -> bool {
    forall|i: int, j: int| 0 <= i < j < s.len() ==> lex_lt(#[trigger] s[i], #[trigger] s[j])
}

/// No element sorts strictly before the one in front of it.
pub open spec fn non_decreasing(s: Seq<Seq<u8>>) -> bool {
    forall|i: int| 0 < i < s.len() ==> !lex_lt(#[trigger] s[i], s[i - 1])
}

/// The concatenation of the byte strings in `s`.
pub open spec fn concat(s: Seq<Seq<u8>>) -> Seq<u8>
    decreases s.len(),
{
    if s.len() == 0 {
        Seq::empty()
    } else {
        concat(s.drop_last()) + s.last()
    }
}

/// The encoding of a sequence whose elements are encoded as `s`.
pub open spec fn encode_seq_spec(s: Seq<Seq<u8>>) -> Seq<u8> {
    encode_unsigned_spec(s.len() as u64) + concat(s)
}

/// The error for a set whose elements are out of order.
pub open spec fn unordered_set() -> CordError {
    CordError::ValidationError("unordered set")
}

/// No byte string sorts before itself.
pub proof fn lemma_lex_irreflexive(a: Seq<u8>, i: nat)
    ensures
        !lex_lt_from(a, a, i),
    decreases a.len() - i,
{
    if i < a.len() {
        lemma_lex_irreflexive(a, i + 1);
    }
}

/// Byte-lexicographic order is transitive.
pub proof fn lemma_lex_transitive(a: Seq<u8>, b: Seq<u8>, c: Seq<u8>, i: nat)
    requires
        lex_lt_from(a, b, i),
        lex_lt_from(b, c, i),
    ensures
        lex_lt_from(a, c, i),
    decreases a.len() - i,
{
    if i < a.len() && i < b.len() && i < c.len() && a[i as int] == b[i as int] && b[i as int]
        == c[i as int] {
        lemma_lex_transitive(a, b, c, i + 1);
    }
}

/// Two byte strings that differ are ordered one way or the other.
pub proof fn lemma_lex_total(a: Seq<u8>, b: Seq<u8>, i: nat)
    requires
        i <= a.len(),
        i <= b.len(),
        a.subrange(0, i as int) == b.subrange(0, i as int),
    ensures
        a == b || lex_lt_from(a, b, i) || lex_lt_from(b, a, i),
    decreases a.len() - i,
{
    if i < a.len() && i < b.len() && a[i as int] == b[i as int] {
        assert(a.subrange(0, i + 1 as int) =~= a.subrange(0, i as int).push(a[i as int]));
        assert(b.subrange(0, i + 1 as int) =~= b.subrange(0, i as int).push(b[i as int]));
        lemma_lex_total(a, b, i + 1);
    } else if i == a.len() && i == b.len() {
        assert(a =~= a.subrange(0, i as int));
        assert(b =~= b.subrange(0, i as int));
    }
}

/// Byte-lexicographic order is a strict total order.
pub proof fn lemma_lex_facts()
    ensures
        forall|a: Seq<u8>| !#[trigger] lex_lt(a, a),
        forall|a: Seq<u8>, b: Seq<u8>, c: Seq<u8>|
            #[trigger] lex_lt(a, b) && #[trigger] lex_lt(b, c) ==> lex_lt(a, c),
        forall|a: Seq<u8>, b: Seq<u8>| a != b ==> #[trigger] lex_lt(a, b) || lex_lt(b, a),
{
    assert forall|a: Seq<u8>| !#[trigger] lex_lt(a, a) by {
        lemma_lex_irreflexive(a, 0);
    }
    assert forall|a: Seq<u8>, b: Seq<u8>, c: Seq<u8>|
        #[trigger] lex_lt(a, b) && #[trigger] lex_lt(b, c) implies lex_lt(a, c) by {
        lemma_lex_transitive(a, b, c, 0);
    }
    assert forall|a: Seq<u8>, b: Seq<u8>| a != b implies #[trigger] lex_lt(a, b) || lex_lt(b, a) by {
        assert(a.subrange(0, 0) =~= b.subrange(0, 0));
        lemma_lex_total(a, b, 0);
    }
}

/// Byte-lexicographic comparison: `a` sorts strictly before `b`.
pub fn bytes_less(a: &[u8], b: &[u8]) -> (r: bool)
    ensures
        r == lex_lt(a@, b@),
{
    let mut i: usize = 0;
    while i < a.len() && i < b.len()
        invariant
            i <= a@.len(),
            i <= b@.len(),
            lex_lt(a@, b@) == lex_lt_from(a@, b@, i as nat),
        decreases a@.len() - i,
    {
        if a[i] != b[i] {
            return a[i] < b[i];
        }
        i = i + 1;
    }
    i < b.len() && i == a.len()
}

/// The byte strings that a vector of buffers holds.
pub open spec fn views(s: Seq<Vec<u8>>) -> Seq<Seq<u8>> {
    s.map_values(|v: Vec<u8>| v@)
}

/// A canonical set, held as the encodings of its elements in byte-lexicographic
/// order, each once. Its encoding is a sequence in that order, so equal sets
/// encode to equal bytes whatever order their elements were added in.
#[derive(Clone, Debug)]
pub struct CordSet {
    items: Vec<Vec<u8>>,
}

impl CordSet {
    /// The element encodings, in canonical order.
    pub closed spec fn elems(&self) -> Seq<Seq<u8>> {
        views(self.items@)
    }

    /// The elements are strictly ascending.
    pub open spec fn wf(&self) -> bool {
        strictly_sorted(self.elems())
    }

    /// The empty set.
    pub fn new() -> (r: Self)
        ensures
            r.wf(),
            r.elems() == Seq::<Seq<u8>>::empty(),
    {
        let r = CordSet { items: Vec::new() };
        proof {
            assert(r.elems() =~= Seq::<Seq<u8>>::empty());
        }
        r
    }

    /// The number of elements.
    pub fn len(&self) -> (r: usize)
        ensures
            r == self.elems().len(),
    {
        self.items.len()
    }

    /// Whether an element with encoding `e` is in the set.
    pub fn contains(&self, e: &[u8]) -> (r: bool)
        requires
            self.wf(),
        ensures
            r == self.elems().contains(e@),
    {
        let mut k: usize = 0;
        while k < self.items.len()
            invariant
                k <= self.items@.len(),
                forall|j: int| 0 <= j < k ==> self.elems()[j] != e@,
            decreases self.items@.len() - k,
        {
            let item = &self.items[k];
            if !bytes_less(item.as_slice(), e) && !bytes_less(e, item.as_slice()) {
                proof {
                    lemma_lex_facts();
                    assert(self.elems()[k as int] == e@);
                }
                return true;
            }
            proof {
                lemma_lex_facts();
            }
            k = k + 1;
        }
        false
    }

    /// Adds the element with encoding `e`; `true` when it was not there yet.
    pub fn insert(&mut self, e: Vec<u8>) -> (r: bool)
        requires
            old(self).wf(),
        ensures
            final(self).wf(),
            r == !old(self).elems().contains(e@),
            final(self).elems().to_set() == old(self).elems().to_set().insert(e@),
    {
        proof {
            lemma_lex_facts();
        }
        let mut k: usize = 0;
        let mut found_place = false;
        while !found_place && k < self.items.len()
            invariant
                self == old(self),
                self.wf(),
                k <= self.items@.len(),
                forall|j: int| 0 <= j < k ==> lex_lt(#[trigger] self.elems()[j], e@),
                found_place ==> k < self.items@.len() && !lex_lt(self.elems()[k as int], e@),
            decreases self.items@.len() - k, if found_place { 0int } else { 1int },
        {
            if bytes_less(self.items[k].as_slice(), e.as_slice()) {
                k = k + 1;
            } else {
                found_place = true;
            }
        }
        if k < self.items.len() && !bytes_less(e.as_slice(), self.items[k].as_slice()) {
            proof {
                assert(self.elems()[k as int] == e@);
                assert(self.elems().to_set().insert(e@) =~= self.elems().to_set());
            }
            return false;
        }
        let ghost before = self.elems();
        proof {
            assert forall|j: int| 0 <= j < before.len() implies before[j] != e@ by {
                if j >= k {
                    assert(lex_lt(e@, before[k as int]));
                    if j > k {
                        assert(lex_lt(before[k as int], before[j]));
                    }
                }
            }
        }
        self.items.insert(k, e);
        proof {
            let after = self.elems();
            assert(after =~= before.insert(k as int, e@));
            assert forall|i: int, j: int| 0 <= i < j < after.len() implies lex_lt(
                #[trigger] after[i],
                #[trigger] after[j],
            ) by {
                if i < k && j == k {
                } else if i < k && j > k {
                    assert(after[i] == before[i]);
                    assert(after[j] == before[j - 1]);
                    if i < j - 1 {
                        assert(lex_lt(before[i], before[j - 1]));
                    }
                } else if i == k {
                    assert(after[j] == before[j - 1]);
                    if j - 1 > k {
                        assert(lex_lt(before[k as int], before[j - 1]));
                    }
                } else if i > k {
                    assert(after[i] == before[i - 1]);
                    assert(after[j] == before[j - 1]);
                } else {
                    assert(after[i] == before[i]);
                    assert(after[j] == before[j]);
                }
            }
            assert(!before.contains(e@));
            assert(after.to_set() =~= before.to_set().insert(e@)) by {
                assert forall|x: Seq<u8>| after.to_set().contains(x) <==> before.to_set().insert(e@).contains(x) by {
                    if after.contains(x) {
                        let i = choose|i: int| 0 <= i < after.len() && after[i] == x;
                        if i < k {
                            assert(before[i] == x);
                        } else if i > k {
                            assert(before[i - 1] == x);
                        }
                    }
                    if before.contains(x) {
                        let i = choose|i: int| 0 <= i < before.len() && before[i] == x;
                        if i < k {
                            assert(after[i] == x);
                        } else {
                            assert(after[i + 1] == x);
                        }
                    }
                    if x == e@ {
                        assert(after[k as int] == x);
                    }
                }
            }
        }
        true
    }
    /// The element encodings, in canonical order.
    pub fn to_vec(&self) -> (r: Vec<Vec<u8>>)
        ensures
            views(r@) == self.elems(),
    {
        let mut r: Vec<Vec<u8>> = Vec::new();
        let mut i: usize = 0;
        while i < self.items.len()
            invariant
                i <= self.items@.len(),
                views(r@) == self.elems().subrange(0, i as int),
            decreases self.items@.len() - i,
        {
            let item = self.items[i].clone();
            proof {
                assert(item@ =~= self.items@[i as int]@);
            }
            let ghost before = r@;
            r.push(item);
            i = i + 1;
            proof {
                assert(r@ == before.push(item));
                assert(views(r@) =~= views(before).push(item@));
                assert(views(r@) =~= self.elems().subrange(0, i as int));
            }
        }
        proof {
            assert(self.elems().subrange(0, i as int) =~= self.elems());
        }
        r
    }

    /// Writes the set as a sequence: its size, then each element's encoding
    /// in canonical order.
    pub fn encode(&self, enc: &mut CordSerializer)
        ensures
            final(enc)@ == old(enc)@ + encode_seq_spec(self.elems()),
    {
        enc.serialize_usize(self.items.len());
        let ghost start = enc@;
        let mut i: usize = 0;
        while i < self.items.len()
            invariant
                i <= self.items@.len(),
                enc@ == start + concat(self.elems().subrange(0, i as int)),
            decreases self.items@.len() - i,
        {
            enc.write_raw(self.items[i].as_slice());
            i = i + 1;
            proof {
                let prefix = self.elems().subrange(0, i as int);
                assert(prefix.drop_last() =~= self.elems().subrange(0, i - 1));
                assert(enc@ =~= start + concat(prefix));
            }
        }
        proof {
            assert(self.elems().subrange(0, i as int) =~= self.elems());
            assert(enc@ =~= old(enc)@ + encode_seq_spec(self.elems()));
        }
    }

    /// The encoding of the set.
    pub fn to_bytes(&self) -> (r: Vec<u8>)
        ensures
            r@ == encode_seq_spec(self.elems()),
    {
        let mut enc = CordSerializer::new();
        self.encode(&mut enc);
        enc.into_bytes()
    }
}

/// Collects a set while it is decoded, element by element, and refuses an
/// element whose encoding sorts strictly before the previous one's.
#[derive(Debug)]
pub struct SetVisitor {
    previous: Option<Vec<u8>>,
    set: CordSet,
}

impl SetVisitor {
    /// The encodings taken so far, as a set.
    pub closed spec fn elems(&self) -> Seq<Seq<u8>> {
        self.set.elems()
    }

    /// The encoding of the element taken last.
    pub closed spec fn last(&self) -> Option<Seq<u8>> {
        match self.previous {
            Some(p) => Some(p@),
            None => None,
        }
    }

    /// The set is canonical and the last element taken is its greatest.
    pub closed spec fn wf(&self) -> bool {
        &&& self.set.wf()
        &&& (self.previous is None <==> self.set.elems().len() == 0)
        &&& (self.previous matches Some(p) ==> p@ == self.set.elems().last())
    }

    /// A visitor that has taken nothing.
    pub fn new() -> (r: Self)
        ensures
            r.wf(),
            r.last() is None,
            r.elems() == Seq::<Seq<u8>>::empty(),
    {
        SetVisitor { previous: None, set: CordSet::new() }
    }

    /// Takes the next element's encoding, or refuses it when it sorts
    /// strictly before the previous one's.
    pub fn visit_element(&mut self, e: Vec<u8>) -> (r: Result<(), CordError>)
        requires
            old(self).wf(),
        ensures
            final(self).wf(),
            r is Err <==> (old(self).last() matches Some(p) && lex_lt(e@, p)),
            r is Err ==> r == Err::<(), CordError>(unordered_set()),
            r is Ok ==> final(self).last() == Some(e@) && final(self).elems().to_set()
                == old(self).elems().to_set().insert(e@),
    {
        proof {
            lemma_lex_facts();
        }
        if let Some(p) = &self.previous {
            if bytes_less(e.as_slice(), p.as_slice()) {
                return Err(CordError::ValidationError("unordered set"));
            }
        }
        let ghost before = self.set.elems();
        let copy = e.clone();
        proof {
            assert(copy@ =~= e@);
        }
        let added = self.set.insert(copy);
        proof {
            let after = self.set.elems();
            assert(after.to_set().contains(e@));
            assert(after.contains(e@));
            let m = choose|m: int| 0 <= m < after.len() && after[m] == e@;
            let last = after.len() - 1;
            assert(after.to_set().contains(after[last]));
            assert(before.to_set().insert(e@).contains(after[last]));
            if after[last] != e@ {
                assert(before.contains(after[last]));
                let j = choose|j: int| 0 <= j < before.len() && before[j] == after[last];
                assert(old(self).previous is Some);
                if j < before.len() - 1 {
                    assert(lex_lt(before[j], before.last()));
                }
                assert(!lex_lt(e@, before.last()));
                assert(m < last);
                assert(lex_lt(e@, after[last]));
                assert(!lex_lt(after[last], e@) || before[j] == before.last());
                if before[j] == before.last() {
                    assert(e@ != before.last());
                    assert(lex_lt(before.last(), e@));
                }
                assert(false);
            }
        }
        self.previous = Some(e);
        Ok(())
    }

    /// The set collected.
    pub fn finish(self) -> (r: CordSet)
        requires
            self.wf(),
        ensures
            r.wf(),
            r.elems() == self.elems(),
    {
        self.set
    }
}

impl CordSet {
    /// The set of the given element encodings, in any order, with repeats.
    pub fn from_encodings(encoded: Vec<Vec<u8>>) -> (r: CordSet)
        ensures
            r.wf(),
            r.elems().to_set() == views(encoded@).to_set(),
    {
        let mut r = CordSet::new();
        let mut i: usize = 0;
        while i < encoded.len()
            invariant
                i <= encoded@.len(),
                r.wf(),
                r.elems().to_set() == views(encoded@).subrange(0, i as int).to_set(),
            decreases encoded@.len() - i,
        {
            let e = encoded[i].clone();
            proof {
                assert(e@ =~= encoded@[i as int]@);
            }
            r.insert(e);
            i = i + 1;
            proof {
                let all = views(encoded@);
                assert(all.subrange(0, i as int) =~= all.subrange(0, i - 1).push(all[i - 1]));
                all.subrange(0, i - 1).lemma_push_to_set_commute(all[i - 1]);
            }
        }
        proof {
            assert(views(encoded@).subrange(0, i as int) =~= views(encoded@));
        }
        r
    }
}

/// Collects the set whose elements were decoded with the given encodings,
/// in the order they were read; refuses them when one sorts strictly before
/// the one in front of it.
pub fn collect_set(encoded: &Vec<Vec<u8>>) -> (r: Result<CordSet, CordError>)
    ensures
        r is Ok <==> non_decreasing(views(encoded@)),
        r matches Ok(set) ==> set.wf() && set.elems().to_set() == views(encoded@).to_set(),
        r is Err ==> r == Err::<CordSet, CordError>(unordered_set()),
{
    let ghost all = views(encoded@);
    let mut visitor = SetVisitor::new();
    let mut i: usize = 0;
    while i < encoded.len()
        invariant
            i <= encoded@.len(),
            all == views(encoded@),
            visitor.wf(),
            non_decreasing(all.subrange(0, i as int)),
            visitor.elems().to_set() == all.subrange(0, i as int).to_set(),
            i == 0 ==> visitor.last() is None,
            i > 0 ==> visitor.last() == Some(all[i - 1]),
        decreases encoded@.len() - i,
    {
        let e = encoded[i].clone();
        proof {
            assert(e@ =~= all[i as int]);
        }
        match visitor.visit_element(e) {
            Ok(()) => {},
            Err(err) => {
                proof {
                    assert(!non_decreasing(all)) by {
                        assert(!lex_lt(all[i as int], all[i - 1]) ==> false);
                    }
                }
                return Err(err);
            },
        }
        i = i + 1;
        proof {
            assert(all.subrange(0, i as int) =~= all.subrange(0, i - 1).push(all[i - 1]));
            all.subrange(0, i - 1).lemma_push_to_set_commute(all[i - 1]);
            assert forall|j: int| 0 < j < i implies !lex_lt(
                #[trigger] all.subrange(0, i as int)[j],
                all.subrange(0, i as int)[j - 1],
            ) by {
                if j < i - 1 {
                    assert(all.subrange(0, i as int)[j] == all.subrange(0, i - 1)[j]);
                    assert(all.subrange(0, i as int)[j - 1] == all.subrange(0, i - 1)[j - 1]);
                }
            }
        }
    }
    proof {
        assert(all.subrange(0, i as int) =~= all);
    }
    Ok(visitor.finish())
}

/// Two strictly ascending sequences with the same elements are equal.
pub proof fn lemma_sorted_unique(s: Seq<Seq<u8>>, t: Seq<Seq<u8>>)
    requires
        strictly_sorted(s),
        strictly_sorted(t),
        s.to_set() == t.to_set(),
    ensures
        s == t,
    decreases s.len(),
{
    lemma_lex_facts();
    if s.len() == 0 {
        if t.len() > 0 {
            assert(t.to_set().contains(t[0]));
            assert(s.to_set().contains(t[0]));
        }
        assert(s =~= t);
    } else {
        assert(s.to_set().contains(s[0]));
        assert(t.contains(s[0]));
        assert(t.len() > 0);
        assert(t.to_set().contains(t[0]));
        assert(s.contains(t[0]));
        let j = choose|j: int| 0 <= j < t.len() && t[j] == s[0];
        let k = choose|k: int| 0 <= k < s.len() && s[k] == t[0];
        if j > 0 {
            assert(lex_lt(t[0], t[j]));
            if k > 0 {
                assert(lex_lt(s[0], s[k]));
            }
            assert(false);
        }
        let s1 = s.drop_first();
        let t1 = t.drop_first();
        assert(s1.to_set() =~= t1.to_set()) by {
            assert forall|x: Seq<u8>| s1.to_set().contains(x) implies t1.to_set().contains(x) by {
                let a = choose|a: int| 0 <= a < s1.len() && s1[a] == x;
                assert(lex_lt(s[0], s[a + 1]));
                assert(s.to_set().contains(x));
                let b = choose|b: int| 0 <= b < t.len() && t[b] == x;
                assert(b != 0);
                assert(t1[b - 1] == x);
            }
            assert forall|x: Seq<u8>| t1.to_set().contains(x) implies s1.to_set().contains(x) by {
                let a = choose|a: int| 0 <= a < t1.len() && t1[a] == x;
                assert(lex_lt(t[0], t[a + 1]));
                assert(t.to_set().contains(x));
                let b = choose|b: int| 0 <= b < s.len() && s[b] == x;
                assert(b != 0);
                assert(s1[b - 1] == x);
            }
        }
        assert forall|a: int, b: int| 0 <= a < b < s1.len() implies lex_lt(#[trigger] s1[a], #[trigger] s1[b]) by {
            assert(s1[a] == s[a + 1] && s1[b] == s[b + 1]);
        }
        assert forall|a: int, b: int| 0 <= a < b < t1.len() implies lex_lt(#[trigger] t1[a], #[trigger] t1[b]) by {
            assert(t1[a] == t[a + 1] && t1[b] == t[b + 1]);
        }
        lemma_sorted_unique(s1, t1);
        assert(s =~= t) by {
            assert forall|a: int| 0 <= a < s.len() implies s[a] == t[a] by {
                if a > 0 {
                    assert(s[a] == s1[a - 1]);
                    assert(t[a] == t1[a - 1]);
                }
            }
        }
    }
}

/// Sets with the same elements encode to the same bytes, whatever order the
/// elements were added in.
pub proof fn lemma_canonical_encoding(a: &CordSet, b: &CordSet)
    requires
        a.wf(),
        b.wf(),
        a.elems().to_set() == b.elems().to_set(),
    ensures
        a.elems() == b.elems(),
        encode_seq_spec(a.elems()) == encode_seq_spec(b.elems()),
{
    lemma_sorted_unique(a.elems(), b.elems());
}

} // verus!
