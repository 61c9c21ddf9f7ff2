//! Segment store: accepts (ordinal, bytes) artifacts and presents them as
//! an ordinal-ordered list of record paths.
//!
//! A record's path is derived from its ordinal alone: the ordinal
//! zero-padded to a fixed width plus a `.ts` extension, under the store's
//! directory. The padding makes lexicographic name order equal ordinal
//! order, and a retry of the same ordinal reuses the same path.

use vstd::prelude::*;
use vstd::pervasive::VecAdditionalExecFns;

verus! {

/// Width of the zero-padded ordinal in a record name; every `usize`
/// ordinal fits in this many decimal digits.
pub const DIGIT_WIDTH: usize = 20;

pub const SLASH: u8 = 47;

pub open spec fn pow10(k: nat) -> nat
    decreases k,
{
    if k == 0 {
        1
    } else {
        10 * pow10((k - 1) as nat)
    }
}

/// The decimal digits of `o`, zero-padded to width `w`, most significant
/// digit first.
pub open spec fn pad_decimal(o: nat, w: nat) -> Seq<u8>
    decreases w,
{
    if w == 0 {
        Seq::empty()
    } else {
        pad_decimal(o / 10, (w - 1) as nat).push((48 + o % 10) as u8)
    }
}

/// The bytes of ".ts".
pub open spec fn record_suffix() -> Seq<u8> {
    seq![46u8, 116u8, 115u8]
}

/// The file name of the record for ordinal `o`.
pub open spec fn record_name(o: nat) -> Seq<u8> {
    pad_decimal(o, DIGIT_WIDTH as nat) + record_suffix()
}

/// The path of the record for ordinal `o` under directory `dir`.
pub open spec fn record_path(dir: Seq<u8>, o: nat) -> Seq<u8> {
    dir + seq![SLASH] + record_name(o)
}

fn pad_decimal_exec(o: u64, w: usize) -> (r: Vec<u8>)
    ensures
        r@ == pad_decimal(o as nat, w as nat),
    decreases w,
{
    if w == 0 {
        Vec::new()
    } else {
        let mut r = pad_decimal_exec(o / 10, w - 1);
        r.push(48 + (o % 10) as u8);
        r
    }
}

/// The record file name of an ordinal, zero-padded so that lexicographic
/// order of names equals ordinal order.
pub fn record_name_exec(ordinal: usize) -> (r: Vec<u8>)
    ensures
        r@ == record_name(ordinal as nat),
{
    let mut r = pad_decimal_exec(ordinal as u64, DIGIT_WIDTH);
    r.push(46);
    r.push(116);
    r.push(115);
    proof {
        assert(r@ =~= record_name(ordinal as nat));
    }
    r
}

/// The record path of an ordinal under `dir`.
pub fn record_path_exec(dir: &Vec<u8>, ordinal: usize) -> (r: Vec<u8>)
    ensures
        r@ == record_path(dir@, ordinal as nat),
{
    let mut r: Vec<u8> = Vec::new();
    let mut i: usize = 0;
    while i < dir.len()
        invariant
            i <= dir@.len(),
            r@ == dir@.subrange(0, i as int),
        decreases dir@.len() - i,
    {
        r.push(dir[i]);
        proof {
            assert(r@ =~= dir@.subrange(0, i + 1));
        }
        i = i + 1;
    }
    r.push(SLASH);
    let mut name = record_name_exec(ordinal);
    r.append(&mut name);
    proof {
        assert(dir@.subrange(0, dir@.len() as int) =~= dir@);
        assert(r@ =~= record_path(dir@, ordinal as nat));
    }
    r
}

/// A write-only sink for segment artifacts, keyed by ordinal, that can
/// later enumerate its records in ordinal order.
pub struct SegmentStore {
    pub dir: Vec<u8>,
    pub records: Vec<Option<Vec<u8>>>,
}

impl SegmentStore {
    /// How many ordinals the store was sized for.
    pub open spec fn total(self) -> int {
        self.records@.len() as int
    }

    /// Whether ordinal `o` holds an artifact.
    pub open spec fn stored(self, o: int) -> bool {
        0 <= o < self.total() && self.records@[o] is Some
    }

    /// The artifact bytes at ordinal `o`.
    pub open spec fn content_of(self, o: int) -> Seq<u8> {
        self.records@[o].unwrap()@
    }

    /// Every ordinal holds an artifact.
    pub open spec fn is_complete_spec(self) -> bool {
        forall|o: int| 0 <= o < self.total() ==> self.stored(o)
    }

    /// All artifacts, in ordinal order.
    pub open spec fn contents(self) -> Seq<Seq<u8>> {
        Seq::new(self.total() as nat, |o: int| self.content_of(o))
    }

    /// An empty store for `n` ordinals under directory `dir`.
    pub fn new(dir: Vec<u8>, n: usize) -> (r: SegmentStore)
        ensures
            r.total() == n,
            r.dir@ == dir@,
            forall|o: int| !r.stored(o),
    {
        let mut records: Vec<Option<Vec<u8>>> = Vec::new();
        let mut i: usize = 0;
        while i < n
            invariant
                i <= n,
                records@.len() == i,
                forall|o: int| 0 <= o < i ==> (#[trigger] records@[o]) is None,
            decreases n - i,
        {
            records.push(None);
            i = i + 1;
        }
        SegmentStore { dir, records }
    }

    /// Persist `bytes` as the artifact of `ordinal` and return its record
    /// path. A repeated put of the same ordinal reuses the same path and
    /// replaces the artifact; no other ordinal changes.
    pub fn put(&mut self, ordinal: usize, bytes: Vec<u8>) -> (path: Vec<u8>)
        requires
            ordinal < old(self).total(),
        ensures
            final(self).total() == old(self).total(),
            final(self).dir@ == old(self).dir@,
            final(self).stored(ordinal as int),
            final(self).content_of(ordinal as int) == bytes@,
            forall|o: int|
                o != ordinal ==> (final(self).stored(o) == old(self).stored(o) && (old(
                    self,
                ).stored(o) ==> final(self).content_of(o) == old(self).content_of(o))),
            path@ == record_path(old(self).dir@, ordinal as nat),
    {
        let path = record_path_exec(&self.dir, ordinal);
        self.records.set(ordinal, Some(bytes));
        path
    }

    /// Whether every ordinal has been stored.
    pub fn is_complete(&self) -> (r: bool)
        ensures
            r == self.is_complete_spec(),
    {
        let mut o: usize = 0;
        while o < self.records.len()
            invariant
                o <= self.total(),
                forall|i: int| 0 <= i < o ==> self.stored(i),
        decreases self.total() - o,
        {
            if self.records[o].is_none() {
                proof {
                    assert(!self.stored(o as int));
                }
                return false;
            }
            o = o + 1;
        }
        true
    }

    /// The record paths of a complete store, in ordinal order: exactly one
    /// path per ordinal, no gaps, no duplicates.
    pub fn enumerate(&self) -> (r: Vec<Vec<u8>>)
        requires
            self.is_complete_spec(),
        ensures
            r@.len() == self.total(),
            forall|o: int|
                0 <= o < r@.len() ==> (#[trigger] r@[o])@ == record_path(self.dir@, o as nat),
            forall|o1: int, o2: int|
                0 <= o1 < o2 < r@.len() ==> (#[trigger] r@[o1])@ != (#[trigger] r@[o2])@,
    {
        let mut r: Vec<Vec<u8>> = Vec::new();
        let mut o: usize = 0;
        while o < self.records.len()
            invariant
                o <= self.total(),
                r@.len() == o,
                forall|i: int|
                    0 <= i < o ==> (#[trigger] r@[i])@ == record_path(self.dir@, i as nat),
            decreases self.total() - o,
        {
            let path = record_path_exec(&self.dir, o);
            r.push(path);
            o = o + 1;
        }
        proof {
            assert forall|o1: int, o2: int| 0 <= o1 < o2 < r@.len() implies (#[trigger] r@[o1])@
                != (#[trigger] r@[o2])@ by {
                lemma_usize_fits_digit_width(o1 as nat);
                lemma_usize_fits_digit_width(o2 as nat);
                lemma_record_paths_distinct(self.dir@, o1 as nat, o2 as nat);
            }
        }
        r
    }

    /// The concatenation of all artifacts in ordinal order.
    pub fn concat_contents(&self) -> (r: Vec<u8>)
        requires
            self.is_complete_spec(),
        ensures
            r@ == self.contents().flatten(),
    {
        let mut r: Vec<u8> = Vec::new();
        let mut o: usize = 0;
        proof {
            assert(self.contents().take(0) =~= Seq::<Seq<u8>>::empty());
            Seq::<Seq<u8>>::empty().lemma_flatten_one_element();
            assert(self.contents().take(0).flatten() =~= Seq::<u8>::empty());
        }
        while o < self.records.len()
            invariant
                o <= self.total(),
                self.is_complete_spec(),
                r@ == self.contents().take(o as int).flatten(),
            decreases self.total() - o,
        {
            proof {
                assert(self.stored(o as int));
            }
            let bytes = self.records[o].as_ref().unwrap();
            let mut p: usize = 0;
            while p < bytes.len()
                invariant
                    p <= bytes@.len(),
                    bytes@ == self.contents()[o as int],
                    o < self.total(),
                    self.is_complete_spec(),
                    r@ == self.contents().take(o as int).flatten() + bytes@.subrange(
                        0,
                        p as int,
                    ),
                decreases bytes@.len() - p,
            {
                r.push(bytes[p]);
                proof {
                    assert(bytes@.subrange(0, p as int).push(bytes@[p as int]) =~= bytes@.subrange(
                        0,
                        p + 1,
                    ));
                    assert(r@ =~= self.contents().take(o as int).flatten() + bytes@.subrange(
                        0,
                        p + 1,
                    ));
                }
                p = p + 1;
            }
            proof {
                let c = self.contents();
                assert(bytes@.subrange(0, bytes@.len() as int) =~= bytes@);
                c.take(o as int).lemma_flatten_push(bytes@);
                assert(c.take(o as int).push(c[o as int]) =~= c.take(o + 1));
                assert(r@ == c.take(o + 1).flatten());
            }
            o = o + 1;
        }
        proof {
            assert(self.contents().take(self.total()) =~= self.contents());
        }
        r
    }
}

/// Strict lexicographic order on byte strings, as a directory listing
/// sorts names.
pub open spec fn lex_less(a: Seq<u8>, b: Seq<u8>) -> bool
    decreases a.len(),
{
    if b.len() == 0 {
        false
    } else if a.len() == 0 {
        true
    } else if a[0] < b[0] {
        true
    } else if a[0] > b[0] {
        false
    } else {
        lex_less(a.skip(1), b.skip(1))
    }
}

proof fn lemma_lex_irrefl(a: Seq<u8>)
    ensures
        !lex_less(a, a),
    decreases a.len(),
{
    if a.len() > 0 {
        lemma_lex_irrefl(a.skip(1));
    }
}

proof fn lemma_lex_push(a: Seq<u8>, b: Seq<u8>, x: u8, y: u8)
    requires
        a.len() == b.len(),
    ensures
        lex_less(a.push(x), b.push(y)) == (lex_less(a, b) || (a == b && x < y)),
    decreases a.len(),
{
    reveal_with_fuel(lex_less, 3);
    if a.len() == 0 {
        assert(a =~= b);
        assert(a.push(x)[0] == x);
        assert(b.push(y)[0] == y);
        assert(a.push(x).skip(1) =~= Seq::<u8>::empty());
        assert(b.push(y).skip(1) =~= Seq::<u8>::empty());
    } else {
        assert(a.push(x)[0] == a[0]);
        assert(b.push(y)[0] == b[0]);
        assert(a.push(x).skip(1) =~= a.skip(1).push(x));
        assert(b.push(y).skip(1) =~= b.skip(1).push(y));
        lemma_lex_push(a.skip(1), b.skip(1), x, y);
        if a[0] == b[0] {
            assert((a == b) == (a.skip(1) == b.skip(1))) by {
                if a.skip(1) == b.skip(1) {
                    assert forall|k: int| 0 <= k < a.len() implies a[k] == b[k] by {
                        if k > 0 {
                            assert(a.skip(1)[k - 1] == b.skip(1)[k - 1]);
                        }
                    }
                    assert(a =~= b);
                }
                if a == b {
                    assert(a.skip(1) =~= b.skip(1));
                }
            }
        }
    }
}

proof fn lemma_lex_append(a: Seq<u8>, b: Seq<u8>, s: Seq<u8>)
    requires
        a.len() == b.len(),
        lex_less(a, b),
    ensures
        lex_less(a + s, b + s),
    decreases a.len(),
{
    if a.len() == 0 {
    } else {
        assert((a + s)[0] == a[0]);
        assert((b + s)[0] == b[0]);
        if a[0] == b[0] {
            assert((a + s).skip(1) =~= a.skip(1) + s);
            assert((b + s).skip(1) =~= b.skip(1) + s);
            lemma_lex_append(a.skip(1), b.skip(1), s);
        }
    }
}

proof fn lemma_pad_decimal_len(o: nat, w: nat)
    ensures
        pad_decimal(o, w).len() == w,
    decreases w,
{
    if w > 0 {
        lemma_pad_decimal_len(o / 10, (w - 1) as nat);
    }
}

proof fn lemma_pad_decimal_lex(i: nat, j: nat, w: nat)
    requires
        i < j,
        j < pow10(w),
    ensures
        lex_less(pad_decimal(i, w), pad_decimal(j, w)),
    decreases w,
{
    if w == 0 {
        // pow10(0) == 1 leaves no room for i < j
    } else {
        let qi = i / 10;
        let qj = j / 10;
        let ri = i % 10;
        let rj = j % 10;
        vstd::arithmetic::div_mod::lemma_fundamental_div_mod(i as int, 10);
        vstd::arithmetic::div_mod::lemma_fundamental_div_mod(j as int, 10);
        vstd::arithmetic::div_mod::lemma_div_is_ordered(i as int, j as int, 10);
        let p = pow10((w - 1) as nat);
        assert(pow10(w) == 10 * p);
        vstd::arithmetic::div_mod::lemma_fundamental_div_mod_converse(
            10 * p as int - 1,
            10,
            p as int - 1,
            9,
        );
        vstd::arithmetic::div_mod::lemma_div_is_ordered(j as int, 10 * p as int - 1, 10);
        assert(qj < p);
        lemma_pad_decimal_len(qi, (w - 1) as nat);
        lemma_pad_decimal_len(qj, (w - 1) as nat);
        lemma_lex_push(
            pad_decimal(qi, (w - 1) as nat),
            pad_decimal(qj, (w - 1) as nat),
            (48 + ri) as u8,
            (48 + rj) as u8,
        );
        if qi < qj {
            lemma_pad_decimal_lex(qi, qj, (w - 1) as nat);
        } else {
            assert(qi == qj);
            assert(ri < rj);
        }
    }
}

/// Record names sort lexicographically in ordinal order: listing the
/// store's directory by name reproduces the manifest order.
pub proof fn lemma_record_names_ordered(i: nat, j: nat)
    requires
        i < j,
        j < pow10(DIGIT_WIDTH as nat),
    ensures
        lex_less(record_name(i), record_name(j)),
        record_name(i) != record_name(j),
{
    let w = DIGIT_WIDTH as nat;
    lemma_pad_decimal_lex(i, j, w);
    lemma_pad_decimal_len(i, w);
    lemma_pad_decimal_len(j, w);
    lemma_lex_append(pad_decimal(i, w), pad_decimal(j, w), record_suffix());
    lemma_lex_irrefl(record_name(i));
}

/// Every `usize` ordinal fits in the padded digit width.
pub proof fn lemma_usize_fits_digit_width(o: nat)
    requires
        o <= usize::MAX as nat,
    ensures
        o < pow10(DIGIT_WIDTH as nat),
{
    assert(pow10(20) == 100000000000000000000) by {
        reveal_with_fuel(pow10, 21);
    }
    assert(usize::MAX as nat <= u64::MAX as nat);
}

/// Distinct ordinals have distinct record paths under one directory.
pub proof fn lemma_record_paths_distinct(dir: Seq<u8>, i: nat, j: nat)
    requires
        i != j,
        i < pow10(DIGIT_WIDTH as nat),
        j < pow10(DIGIT_WIDTH as nat),
    ensures
        record_path(dir, i) != record_path(dir, j),
{
    if i < j {
        lemma_record_names_ordered(i, j);
    } else {
        lemma_record_names_ordered(j, i);
    }
    if record_path(dir, i) == record_path(dir, j) {
        assert(record_name(i) =~= record_name(j)) by {
            lemma_pad_decimal_len(i, DIGIT_WIDTH as nat);
            lemma_pad_decimal_len(j, DIGIT_WIDTH as nat);
            let pre = dir + seq![SLASH];
            assert forall|k: int| 0 <= k < record_name(i).len() implies record_name(i)[k]
                == record_name(j)[k] by {
                assert(record_path(dir, i)[pre.len() + k] == record_name(i)[k]);
                assert(record_path(dir, j)[pre.len() + k] == record_name(j)[k]);
            }
        }
    }
}

/// Round trip: a store holding artifact `b[i]` at each ordinal `i`
/// concatenates, in ordinal order, to `b[0] + b[1] + ... + b[n-1]`.
pub proof fn lemma_round_trip(s: SegmentStore, b: Seq<Seq<u8>>)
    requires
        s.total() == b.len(),
        forall|i: int| 0 <= i < b.len() ==> s.stored(i) && s.content_of(i) == b[i],
    ensures
        s.is_complete_spec(),
        s.contents().flatten() == b.flatten(),
{
    assert(s.contents() =~= b);
}

} // verus!
