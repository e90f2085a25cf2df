//! The document mapping: key/value pairs folded into a map in which a later
//! occurrence of a key overwrites an earlier one, and the serializer that
//! writes a mapping back out as `"key" = "value";` lines.

use vstd::prelude::*;

use crate::scan::is_literal;
use crate::scan::B_EQ;
use crate::scan::B_SEMI;
use crate::trivia::B_LF;
use crate::trivia::B_SPACE;

verus! {

/// No key occurs twice in the pair list.
pub open spec fn distinct_keys(ps: Seq<(Seq<u8>, Seq<u8>)>) -> bool {
    forall|i: int, j: int| 0 <= i < j < ps.len() ==> (#[trigger] ps[i]).0 != (#[trigger] ps[j]).0
}

/// Every key and value in the pair list is a well-formed quoted literal.
pub open spec fn all_literal(ps: Seq<(Seq<u8>, Seq<u8>)>) -> bool {
    forall|i: int|
        0 <= i < ps.len() ==> is_literal((#[trigger] ps[i]).0) && is_literal(ps[i].1)
}

/// The mapping that a pair list denotes: pairs inserted left to right, so a
/// later occurrence of a duplicate key overwrites an earlier one.
pub open spec fn spec_fold_pairs(ps: Seq<(Seq<u8>, Seq<u8>)>) -> Map<Seq<u8>, Seq<u8>>
    decreases ps.len(),
{
    if ps.len() == 0 {
        Map::<Seq<u8>, Seq<u8>>::empty()
    } else {
        spec_fold_pairs(ps.drop_last()).insert(ps.last().0, ps.last().1)
    }
}

/// On a pair list without duplicate keys, the fold holds exactly the listed
/// keys, maps each to its listed value, and has one entry per pair.
pub proof fn lemma_fold_pairs_props(ps: Seq<(Seq<u8>, Seq<u8>)>)
    requires
        distinct_keys(ps),
    ensures
        forall|k: Seq<u8>| #[trigger]
            spec_fold_pairs(ps).contains_key(k) ==> exists|i: int|
                0 <= i < ps.len() && (#[trigger] ps[i]).0 == k,
        forall|i: int|
            0 <= i < ps.len() ==> spec_fold_pairs(ps).contains_key((#[trigger] ps[i]).0),
        forall|i: int|
            0 <= i < ps.len() ==> spec_fold_pairs(ps)[(#[trigger] ps[i]).0] == ps[i].1,
        spec_fold_pairs(ps).dom().finite(),
        spec_fold_pairs(ps).dom().len() == ps.len(),
    decreases ps.len(),
{
    if ps.len() > 0 {
        let qs = ps.drop_last();
        let last = ps.last();
        assert(forall|i: int| 0 <= i < qs.len() ==> #[trigger] qs[i] == ps[i]);
        lemma_fold_pairs_props(qs);
        assert(spec_fold_pairs(ps) == spec_fold_pairs(qs).insert(last.0, last.1));
        assert(!spec_fold_pairs(qs).contains_key(last.0));
        vstd::set::axiom_set_insert_len(spec_fold_pairs(qs).dom(), last.0);
        assert forall|i: int| 0 <= i < ps.len() implies spec_fold_pairs(ps).contains_key(
            (#[trigger] ps[i]).0,
        ) by {
            if i < ps.len() - 1 {
                assert(qs[i] == ps[i]);
                assert(spec_fold_pairs(qs).contains_key(qs[i].0));
            }
        }
        assert forall|i: int| 0 <= i < ps.len() implies spec_fold_pairs(ps)[(
        #[trigger] ps[i]).0] == ps[i].1 by {
            if i < ps.len() - 1 {
                assert(qs[i] == ps[i]);
                assert(ps[i].0 != last.0);
                assert(spec_fold_pairs(qs)[qs[i].0] == qs[i].1);
            }
        }
    }
}

/// Folding a list with one value replaced is the fold of the original with
/// that key re-inserted, when no key occurs twice.
proof fn lemma_fold_pairs_update(ps: Seq<(Seq<u8>, Seq<u8>)>, i: int, v: Seq<u8>)
    requires
        distinct_keys(ps),
        0 <= i < ps.len(),
    ensures
        spec_fold_pairs(ps.update(i, (ps[i].0, v))) == spec_fold_pairs(ps).insert(ps[i].0, v),
    decreases ps.len(),
{
    let ps2 = ps.update(i, (ps[i].0, v));
    let qs = ps.drop_last();
    let last = ps.last();
    assert(forall|j: int| 0 <= j < qs.len() ==> #[trigger] qs[j] == ps[j]);
    if i == ps.len() - 1 {
        assert(ps2.drop_last() =~= qs);
        assert(spec_fold_pairs(ps2) == spec_fold_pairs(qs).insert(ps[i].0, v));
        assert(spec_fold_pairs(qs).insert(ps[i].0, v) =~= spec_fold_pairs(qs).insert(
            last.0,
            last.1,
        ).insert(ps[i].0, v));
    } else {
        assert(ps2.drop_last() =~= qs.update(i, (ps[i].0, v)));
        assert(ps2.last() == last);
        lemma_fold_pairs_update(qs, i, v);
        assert(spec_fold_pairs(ps2) == spec_fold_pairs(qs).insert(qs[i].0, v).insert(
            last.0,
            last.1,
        ));
        assert(qs[i].0 != last.0);
        assert(spec_fold_pairs(qs).insert(qs[i].0, v).insert(last.0, last.1)
            =~= spec_fold_pairs(qs).insert(last.0, last.1).insert(qs[i].0, v));
    }
}

/// One serialized declaration: the key span, ` = `, the value span, `;`, and
/// a line feed.
pub open spec fn spec_render_pair(k: Seq<u8>, v: Seq<u8>) -> Seq<u8> {
    k + seq![B_SPACE, B_EQ, B_SPACE] + v + seq![B_SEMI, B_LF]
}

/// The serialized document: each pair written out in list order.
pub open spec fn spec_render(ps: Seq<(Seq<u8>, Seq<u8>)>) -> Seq<u8>
    decreases ps.len(),
{
    if ps.len() == 0 {
        Seq::empty()
    } else {
        spec_render(ps.drop_last()) + spec_render_pair(ps.last().0, ps.last().1)
    }
}

/// The byte layout of one serialized declaration: the key, ` = `, the
/// value, `;` and a line feed, at their exact offsets.
pub proof fn lemma_render_pair_bytes(k: Seq<u8>, v: Seq<u8>)
    ensures
        spec_render_pair(k, v).len() == k.len() + v.len() + 5,
        forall|x: int| 0 <= x < k.len() ==> #[trigger] spec_render_pair(k, v)[x] == k[x],
        spec_render_pair(k, v)[k.len() as int] == B_SPACE,
        spec_render_pair(k, v)[k.len() as int + 1] == B_EQ,
        spec_render_pair(k, v)[k.len() as int + 2] == B_SPACE,
        forall|x: int|
            0 <= x < v.len() ==> #[trigger] spec_render_pair(k, v)[k.len() as int + 3 + x] == v[x],
        spec_render_pair(k, v)[k.len() as int + 3 + v.len() as int] == B_SEMI,
        spec_render_pair(k, v)[k.len() as int + 4 + v.len() as int] == B_LF,
{
    let s3 = seq![B_SPACE, B_EQ, B_SPACE];
    let s2 = seq![B_SEMI, B_LF];
    let rp = k + s3 + v + s2;
    assert(spec_render_pair(k, v) == rp);
    assert forall|x: int|
        0 <= x < k.len() implies #[trigger] spec_render_pair(k, v)[x] == k[x] by {
        assert(rp[x] == (k + s3 + v)[x]);
        assert((k + s3 + v)[x] == (k + s3)[x]);
        assert((k + s3)[x] == k[x]);
    }
    assert forall|x: int|
        0 <= x < v.len() implies #[trigger] spec_render_pair(k, v)[k.len() as int + 3 + x] == v[x] by {
        assert(rp[k.len() as int + 3 + x] == (k + s3 + v)[k.len() as int + 3 + x]);
        assert((k + s3 + v)[k.len() as int + 3 + x] == v[x]);
    }
    assert(rp[k.len() as int] == (k + s3)[k.len() as int]);
    assert(rp[k.len() as int + 1] == (k + s3)[k.len() as int + 1]);
    assert(rp[k.len() as int + 2] == (k + s3)[k.len() as int + 2]);
    assert(rp[k.len() as int + 3 + v.len() as int] == s2[0]);
    assert(rp[k.len() as int + 4 + v.len() as int] == s2[1]);
}

/// The serialized document starts with its first pair.
pub proof fn lemma_render_head(ps: Seq<(Seq<u8>, Seq<u8>)>)
    requires
        ps.len() > 0,
    ensures
        spec_render(ps) == spec_render_pair(ps[0].0, ps[0].1) + spec_render(ps.drop_first()),
    decreases ps.len(),
{
    let dl = ps.drop_last();
    let df = ps.drop_first();
    if ps.len() == 1 {
        assert(dl.len() == 0 && df.len() == 0);
        assert(spec_render(dl) == Seq::<u8>::empty() && spec_render(df) == Seq::<u8>::empty());
        assert(ps.last() == ps[0]);
        assert(spec_render(ps) =~= spec_render_pair(ps[0].0, ps[0].1) + spec_render(df));
    } else {
        lemma_render_head(dl);
        assert(dl.drop_first() =~= df.drop_last());
        assert(df.last() == ps.last());
        assert(spec_render(ps) =~= spec_render_pair(ps[0].0, ps[0].1) + spec_render(df));
    }
}

/// Whether two byte strings hold the same bytes.
pub fn bytes_eq(a: &[u8], b: &[u8]) -> (r: bool)
    ensures
        r == (a@ == b@),
{
    if a.len() != b.len() {
        assert(a@ != b@) by {
            assert(a@.len() != b@.len());
        }
        return false;
    }
    let n = a.len();
    let mut i: usize = 0;
    while i < n
        invariant
            0 <= i <= n,
            n == a@.len() && n == b@.len(),
            forall|j: int| 0 <= j < i ==> a@[j] == b@[j],
        decreases n - i,
    {
        if a[i] != b[i] {
            return false;
        }
        i = i + 1;
    }
    proof {
        assert(a@ =~= b@);
    }
    true
}

/// Appends the bytes of `b` to `out`.
pub fn push_bytes(out: &mut Vec<u8>, b: &[u8])
    ensures
        final(out)@ == old(out)@ + b@,
{
    out.extend_from_slice(b);
}

/// The document mapping from key span to value span, last write winning.
///
/// Keys and values are the literal quoted spans exactly as written in the
/// document: surrounding quotes included, backslash escapes undecoded.
#[derive(Debug)]
pub struct StringsMap {
    pairs: Vec<(Vec<u8>, Vec<u8>)>,
}

impl View for StringsMap {
    type V = Map<Seq<u8>, Seq<u8>>;

    open spec fn view(&self) -> Map<Seq<u8>, Seq<u8>> {
        spec_fold_pairs(self.entries())
    }
}

impl StringsMap {
    /// The pairs held, in insertion order; each key occurs once.
    pub closed spec fn entries(self) -> Seq<(Seq<u8>, Seq<u8>)> {
        self.pairs@.map_values(|p: (Vec<u8>, Vec<u8>)| (p.0@, p.1@))
    }

    #[verifier::type_invariant]
    spec fn wf(self) -> bool {
        distinct_keys(self.entries())
    }

    /// Creates the empty mapping.
    pub fn new() -> (r: StringsMap)
        ensures
            r@ == Map::<Seq<u8>, Seq<u8>>::empty(),
            r.entries() == Seq::<(Seq<u8>, Seq<u8>)>::empty(),
    {
        let r = StringsMap { pairs: Vec::new() };
        proof {
            assert(r.entries() =~= Seq::<(Seq<u8>, Seq<u8>)>::empty());
        }
        r
    }

    /// The number of entries held, which is also the size of the mapping.
    pub fn len(&self) -> (n: usize)
        ensures
            n == self.entries().len(),
            n == self@.dom().len(),
    {
        proof {
            use_type_invariant(&*self);
            lemma_fold_pairs_props(self.entries());
        }
        self.pairs.len()
    }

    /// The entry at position `i` in insertion order: its key and its value.
    pub fn entry_at(&self, i: usize) -> (r: (&Vec<u8>, &Vec<u8>))
        requires
            i < self.entries().len(),
        ensures
            (r.0@, r.1@) == self.entries()[i as int],
    {
        let p = &self.pairs[i];
        (&p.0, &p.1)
    }

    /// Inserts a pair, overwriting any entry the key already has.
    #[verifier::loop_isolation(false)]
    pub fn insert(&mut self, key: Vec<u8>, value: Vec<u8>)
        ensures
            final(self)@ == old(self)@.insert(key@, value@),
            forall|i: int|
                0 <= i < final(self).entries().len() ==> ((#[trigger] final(self).entries()[i]) == (
                key@,
                value@,
            ) || old(self).entries().contains(final(self).entries()[i])),
    {
        proof {
            use_type_invariant(&*self);
        }
        let ghost old_entries = self.entries();
        let mut pairs: Vec<(Vec<u8>, Vec<u8>)> = Vec::new();
        core::mem::swap(&mut pairs, &mut self.pairs);
        let n = pairs.len();
        let mut i: usize = 0;
        let mut found: Option<usize> = None;
        while i < n
            invariant
                0 <= i <= n,
                found matches Some(j) ==> j < n && old_entries[j as int].0 == key@,
                found is None ==> forall|j: int| 0 <= j < i ==> old_entries[j].0 != key@,
            decreases n - i,
        {
            if found.is_none() && bytes_eq(pairs[i].0.as_slice(), key.as_slice()) {
                found = Some(i);
            }
            i = i + 1;
        }
        match found {
            Some(j) => {
                let ghost k0 = old_entries[j as int].0;
                pairs[j] = (key, value);
                proof {
                    let updated = old_entries.update(j as int, (key@, value@));
                    assert(pairs@.map_values(|p: (Vec<u8>, Vec<u8>)| (p.0@, p.1@)) =~= updated);
                    assert(k0 == key@);
                    assert(updated =~= old_entries.update(
                        j as int,
                        (old_entries[j as int].0, value@),
                    ));
                    lemma_fold_pairs_update(old_entries, j as int, value@);
                    assert(forall|x: int|
                        0 <= x < updated.len() ==> (#[trigger] updated[x]).0 == old_entries[x].0);
                    assert(distinct_keys(updated));
                }
            },
            None => {
                pairs.push((key, value));
                proof {
                    let extended = old_entries.push((key@, value@));
                    assert(pairs@.map_values(|p: (Vec<u8>, Vec<u8>)| (p.0@, p.1@)) =~= extended);
                    assert(extended.drop_last() =~= old_entries);
                    assert(forall|x: int|
                        0 <= x < old_entries.len() ==> #[trigger] extended[x] == old_entries[x]);
                    assert(distinct_keys(extended));
                }
            },
        }
        self.pairs = pairs;
    }

    /// Looks the key up: its value where the mapping holds the key, and
    /// nothing where it does not.
    #[verifier::loop_isolation(false)]
    pub fn get(&self, key: &[u8]) -> (r: Option<&Vec<u8>>)
        ensures
            match r {
                Some(v) => self@.contains_key(key@) && v@ == self@[key@],
                None => !self@.contains_key(key@),
            },
    {
        proof {
            use_type_invariant(&*self);
            lemma_fold_pairs_props(self.entries());
        }
        let n = self.pairs.len();
        let mut i: usize = 0;
        while i < n
            invariant
                0 <= i <= n,
                forall|j: int| 0 <= j < i ==> (#[trigger] self.entries()[j]).0 != key@,
            decreases n - i,
        {
            if bytes_eq(self.pairs[i].0.as_slice(), key) {
                proof {
                    assert(self.entries()[i as int].0 == key@);
                    assert(self@.contains_key(key@));
                    assert(self@[self.entries()[i as int].0] == self.entries()[i as int].1);
                }
                return Some(&self.pairs[i].1);
            }
            i = i + 1;
        }
        None
    }

    /// Whether the mapping holds the key.
    pub fn contains_key(&self, key: &[u8]) -> (b: bool)
        ensures
            b == self@.contains_key(key@),
    {
        self.get(key).is_some()
    }

    /// Writes the mapping back out as a document: one `"key" = "value";`
    /// line per entry, in insertion order.
    #[verifier::loop_isolation(false)]
    pub fn to_document(&self) -> (out: Vec<u8>)
        ensures
            out@ == spec_render(self.entries()),
    {
        let n = self.pairs.len();
        let mut out: Vec<u8> = Vec::new();
        let mut i: usize = 0;
        while i < n
            invariant
                0 <= i <= n,
                out@ == spec_render(self.entries().take(i as int)),
            decreases n - i,
        {
            let ghost prefix = self.entries().take(i as int);
            push_bytes(&mut out, self.pairs[i].0.as_slice());
            out.push(B_SPACE);
            out.push(B_EQ);
            out.push(B_SPACE);
            push_bytes(&mut out, self.pairs[i].1.as_slice());
            out.push(B_SEMI);
            out.push(B_LF);
            proof {
                let next = self.entries().take(i + 1int);
                assert(next.drop_last() =~= prefix);
                assert(next.last() == self.entries()[i as int]);
                assert(out@ =~= spec_render(prefix) + spec_render_pair(
                    self.entries()[i as int].0,
                    self.entries()[i as int].1,
                ));
            }
            i = i + 1;
        }
        proof {
            assert(self.entries().take(n as int) =~= self.entries());
        }
        out
    }
}

} // verus!
