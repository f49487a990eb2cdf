//! Source maps as the Solidity compiler emits them: `;`-separated
//! items of `:`-separated fields, empty fields repeating the last
//! value seen, with an optional jump marker.

use vstd::prelude::*;
use crate::error::Error;
use vstd::string::StringSliceAdditionalSpecFns;

verus! {

/// A span of a source file.
#[derive(Clone, Copy, Debug, PartialEq, Eq, Structural)]
pub struct SourceItem {
    pub offset: usize,
    pub length: usize,
    pub file_index: usize,
}

/// How a jump in the source map is classified.
#[derive(Clone, Copy, Debug, PartialEq, Eq, Structural)]
pub enum JumpType {
    FunctionIn,
    FunctionOut,
    Regular,
}

/// One entry of a source map: a span and its jump classification.
#[derive(Clone, Copy, Debug, PartialEq, Eq, Structural)]
pub struct SourceMapItem {
    pub source: SourceItem,
    pub jump: Option<JumpType>,
}

/// Do two spans overlap in the same file?
pub open spec fn has_intersection_sp(a: SourceItem, b: SourceItem) -> bool {
    &&& a.file_index == b.file_index
    &&& a.offset + a.length > b.offset
    &&& a.offset < b.offset + b.length
}

impl SourceItem {
    /// Do the two spans overlap in the same file?
    pub fn has_intersection(&self, other: &SourceItem) -> (r: bool)
        ensures
            r == has_intersection_sp(*self, *other),
    {
        let self_end = self.offset as u128 + self.length as u128;
        let other_end = other.offset as u128 + other.length as u128;
        self.file_index == other.file_index && self_end > other.offset as u128
            && (self.offset as u128) < other_end
    }

    /// The first span in `others` this one overlaps, with its index.
    pub fn find_intersection(&self, others: &[SourceItem]) -> (r: Option<(usize, SourceItem)>)
        ensures
            r is Some ==> ({
                let (i, item) = r->0;
                &&& i < others@.len()
                &&& item == others@[i as int]
                &&& has_intersection_sp(*self, item)
                &&& forall|j: int| 0 <= j < i
                    ==> !has_intersection_sp(*self, #[trigger] others@[j])
            }),
            r is None ==> forall|j: int| 0 <= j < others@.len()
                ==> !has_intersection_sp(*self, #[trigger] others@[j]),
    {
        let mut i: usize = 0;
        while i < others.len()
            invariant
                i <= others@.len(),
                forall|j: int| 0 <= j < i
                    ==> !has_intersection_sp(*self, #[trigger] others@[j]),
            decreases others@.len() - i,
    {
            if self.has_intersection(&others[i]) {
                return Some((i, others[i]));
            }
            i = i + 1;
        }
        None
    }
}

/// The pieces of `s` between occurrences of `sep`: always one more
/// piece than separators, and pieces hold no separator.
pub open spec fn split_sp(s: Seq<u8>, sep: u8) -> Seq<Seq<u8>>
    decreases s.len(),
{
    if s.len() == 0 {
        seq![s]
    } else if s[0] == sep {
        seq![Seq::empty()] + split_sp(s.skip(1), sep)
    } else {
        let rest = split_sp(s.skip(1), sep);
        rest.update(0, seq![s[0]] + rest[0])
    }
}

pub proof fn lemma_split_len(s: Seq<u8>, sep: u8)
    ensures
        split_sp(s, sep).len() >= 1,
    decreases s.len(),
{
    if s.len() > 0 {
        lemma_split_len(s.skip(1), sep);
    }
}

/// Split a byte string on a separator.
pub fn split_bytes(s: &[u8], sep: u8) -> (r: Vec<Vec<u8>>)
    ensures
        r@.len() == split_sp(s@, sep).len(),
        forall|i: int| 0 <= i < r@.len()
            ==> (#[trigger] r@[i])@ == split_sp(s@, sep)[i],
    decreases s@.len(),
{
    proof {
        lemma_split_len(s@, sep);
    }
    if s.len() == 0 {
        let mut r: Vec<Vec<u8>> = Vec::new();
        r.push(Vec::new());
        proof {
            assert(r@[0]@ =~= split_sp(s@, sep)[0]);
        }
        return r;
    }
    if s[0] == sep {
        let rest = split_bytes(slice_from(s, 1), sep);
        let mut r: Vec<Vec<u8>> = Vec::new();
        r.push(Vec::new());
        let mut k: usize = 0;
        while k < rest.len()
            invariant
                k <= rest@.len(),
                r@.len() == k + 1,
                r@[0]@ =~= Seq::<u8>::empty(),
                forall|i: int| 0 <= i < k ==> (#[trigger] r@[i + 1])@ == rest@[i]@,
            decreases rest@.len() - k,
        {
            let piece = crate::util::clone_bytes(&rest[k]);
            r.push(piece);
            k = k + 1;
        }
        proof {
            let sp = split_sp(s@, sep);
            assert(sp =~= seq![Seq::<u8>::empty()] + split_sp(s@.skip(1), sep));
            assert forall|i: int| 0 <= i < r@.len()
                implies (#[trigger] r@[i])@ == sp[i] by {
                if i > 0 {
                    assert(r@[(i - 1) + 1]@ == rest@[i - 1]@);
                }
            }
        }
        r
    } else {
        let rest = split_bytes(slice_from(s, 1), sep);
        proof {
            lemma_split_len(s@.skip(1), sep);
        }
        let mut first: Vec<u8> = Vec::new();
        first.push(s[0]);
        let old_first = &rest[0];
        let first = {
            let mut f = first;
            crate::rlp::push_all(&mut f, old_first.as_slice());
            f
        };
        let mut r: Vec<Vec<u8>> = Vec::new();
        r.push(first);
        let mut k: usize = 1;
        while k < rest.len()
            invariant
                1 <= k <= rest@.len(),
                r@.len() == k,
                r@[0]@ =~= seq![s@[0]] + rest@[0]@,
                forall|i: int| 1 <= i < k ==> (#[trigger] r@[i])@ == rest@[i]@,
            decreases rest@.len() - k,
        {
            let piece = crate::util::clone_bytes(&rest[k]);
            r.push(piece);
            k = k + 1;
        }
        proof {
            let sp = split_sp(s@, sep);
            let spr = split_sp(s@.skip(1), sep);
            assert(sp =~= spr.update(0, seq![s@[0]] + spr[0]));
            assert forall|i: int| 0 <= i < r@.len()
                implies (#[trigger] r@[i])@ == sp[i] by {
                if i == 0 {
                    assert(r@[0]@ == seq![s@[0]] + rest@[0]@);
                    assert(rest@[0]@ == spr[0]);
                } else {
                    assert(r@[i]@ == rest@[i]@);
                }
            }
        }
        r
    }
}

/// The tail of a slice, from an index on.
fn slice_from(s: &[u8], i: usize) -> (r: &[u8])
    requires
        i <= s@.len(),
    ensures
        r@ == s@.skip(i as int),
{
    let r = vstd::slice::slice_subrange(s, i, s.len());
    proof {
        assert(r@ =~= s@.skip(i as int));
    }
    r
}

/// Is every byte a decimal digit?
pub open spec fn all_digits(s: Seq<u8>) -> bool {
    forall|i: int| 0 <= i < s.len() ==> 48 <= #[trigger] s[i] <= 57
}

/// The number a digit string spells.
pub open spec fn dec_val(s: Seq<u8>) -> nat
    decreases s.len(),
{
    if s.len() == 0 {
        0
    } else {
        (dec_val(s.drop_last()) * 10 + (s.last() - 48)) as nat
    }
}

/// Parse a nonempty digit string; refused on other characters or
/// values that do not fit.
fn parse_usize(s: &Vec<u8>) -> (r: Result<usize, Error>)
    ensures
        r is Ok <==> s@.len() > 0 && all_digits(s@) && dec_val(s@) <= usize::MAX,
        r is Ok ==> r->Ok_0 == dec_val(s@),
        r is Err ==> r->Err_0 == Error::InvalidParams,
{
    if s.len() == 0 {
        return Err(Error::InvalidParams);
    }
    let mut v: usize = 0;
    let mut i: usize = 0;
    while i < s.len()
        invariant
            s@.len() > 0,
            i <= s@.len(),
            all_digits(s@.take(i as int)),
            v == dec_val(s@.take(i as int)),
        decreases s@.len() - i,
    {
        let c = s[i];
        if !(48 <= c && c <= 57) {
            proof {
                assert(!all_digits(s@));
            }
            return Err(Error::InvalidParams);
        }
        let d = (c - 48) as usize;
        let nv = match v.checked_mul(10) {
            Some(x) => match x.checked_add(d) {
                Some(y) => y,
                None => {
                    proof {
                        if all_digits(s@) {
                            assert(s@.take(i + 1).drop_last() =~= s@.take(i as int));
                            assert(s@.take(i + 1).last() == s@[i as int]);
                            lemma_dec_val_prefix_mono(s@, i + 1);
                        }
                    }
                    return Err(Error::InvalidParams);
                },
            },
            None => {
                proof {
                    if all_digits(s@) {
                        assert(s@.take(i + 1).drop_last() =~= s@.take(i as int));
                        assert(s@.take(i + 1).last() == s@[i as int]);
                        lemma_dec_val_prefix_mono(s@, i + 1);
                        assert(dec_val(s@.take(i + 1)) >= v * 10) by {
                            assert(dec_val(s@.take(i + 1)) == v * 10 + (s@[i as int] - 48));
                        }
                    }
                }
                return Err(Error::InvalidParams);
            },
        };
        v = nv;
        proof {
            assert(s@.take(i + 1).drop_last() =~= s@.take(i as int));
        }
        i = i + 1;
    }
    proof {
        assert(s@.take(s@.len() as int) =~= s@);
    }
    Ok(v)
}

/// A longer digit prefix never spells a smaller number.
proof fn lemma_dec_val_prefix_mono(s: Seq<u8>, j: int)
    requires
        0 <= j <= s.len(),
        all_digits(s),
    ensures
        dec_val(s.take(j)) <= dec_val(s),
    decreases s.len() - j,
{
    if j == s.len() {
        assert(s.take(j) =~= s);
    } else {
        assert(s.take(j + 1).drop_last() =~= s.take(j));
        assert(s.take(j + 1).last() == s[j]);
        assert(48 <= s[j] <= 57);
        let a = dec_val(s.take(j));
        let b = dec_val(s.take(j + 1));
        assert(b == a * 10 + (s[j] - 48));
        assert(a * 10 >= a) by (nonlinear_arith);
        assert(b >= a);
        lemma_dec_val_prefix_mono(s, j + 1);
    }
}

/// One field: empty repeats `last`, digits give a new value.
fn parse_field(raw: &Vec<u8>, last: usize) -> (r: Result<usize, Error>)
    ensures
        r is Ok <==> raw@.len() == 0 || (all_digits(raw@) && dec_val(raw@) <= usize::MAX),
        r is Ok ==> r->Ok_0 == (if raw@.len() == 0 {
            last as nat
        } else {
            dec_val(raw@)
        }),
        r is Err ==> r->Err_0 == Error::InvalidParams,
{
    if raw.len() == 0 {
        Ok(last)
    } else {
        parse_usize(raw)
    }
}

/// One field's value: empty repeats the running value, digits give
/// a new one; anything else is refused.
pub open spec fn field_val_sp(raw: Seq<u8>, last: nat) -> Option<nat> {
    if raw.len() == 0 {
        Some(last)
    } else if all_digits(raw) && dec_val(raw) <= usize::MAX {
        Some(dec_val(raw))
    } else {
        None
    }
}

/// The values of one item's `:`-fields, in order, threading the
/// running value; the second component is the value carried onward.
pub open spec fn fields_fold_sp(raws: Seq<Seq<u8>>, last: nat) -> Option<(Seq<nat>, nat)>
    decreases raws.len(),
{
    if raws.len() == 0 {
        Some((Seq::empty(), last))
    } else {
        match fields_fold_sp(raws.drop_last(), last) {
            None => None,
            Some((vs, l)) => match field_val_sp(raws.last(), l) {
                None => None,
                Some(v) => Some(
                    (vs.push(v), if raws.last().len() > 0 {
                        v
                    } else {
                        l
                    }),
                ),
            },
        }
    }
}

/// The first three values, fields missing at the end repeating the
/// running value.
pub open spec fn padded3_sp(vs: Seq<nat>, last: nat) -> (nat, nat, nat) {
    (
        if vs.len() > 0 {
            vs[0]
        } else {
            last
        },
        if vs.len() > 1 {
            vs[1]
        } else {
            last
        },
        if vs.len() > 2 {
            vs[2]
        } else {
            last
        },
    )
}

/// The span an item triple stands for.
pub open spec fn item_of_sp(t: (nat, nat, nat)) -> SourceItem {
    SourceItem { offset: t.0 as usize, length: t.1 as usize, file_index: t.2 as usize }
}

/// Parse every item of a span list, threading the running value
/// across item boundaries.
pub open spec fn source_items_sp(items: Seq<Seq<u8>>, last: nat) -> Option<
    (Seq<SourceItem>, nat),
>
    decreases items.len(),
{
    if items.len() == 0 {
        Some((Seq::empty(), last))
    } else {
        match source_items_sp(items.drop_last(), last) {
            None => None,
            Some((out, l)) => match fields_fold_sp(split_sp(items.last(), 58), l) {
                None => None,
                Some((vs, l2)) => Some((out.push(item_of_sp(padded3_sp(vs, l2))), l2)),
            },
        }
    }
}

/// What parsing a whole span list yields.
pub open spec fn parse_source_sp(s: Seq<u8>) -> Option<Seq<SourceItem>> {
    match source_items_sp(split_sp(s, 59), 0) {
        Some((out, l)) => Some(out),
        None => None,
    }
}

/// The jump marker of a source map entry.
pub open spec fn jump_sp(raw: Seq<u8>) -> Option<JumpType> {
    if raw == seq![105u8] {
        Some(JumpType::FunctionIn)
    } else if raw == seq![111u8] {
        Some(JumpType::FunctionOut)
    } else if raw == seq![45u8] {
        Some(JumpType::Regular)
    } else {
        None
    }
}

/// One source-map item: up to four numeric fields, then the jump
/// marker; later fields are ignored.
pub open spec fn map_item_sp(raws: Seq<Seq<u8>>, last: nat) -> Option<
    (SourceMapItem, nat),
> {
    let nf = if raws.len() <= 4 {
        raws.len() as int
    } else {
        4int
    };
    match fields_fold_sp(raws.take(nf), last) {
        None => None,
        Some((vs, l2)) => if raws.len() > 4 {
            match jump_sp(raws[4]) {
                None => None,
                Some(j) => Some(
                    (SourceMapItem { source: item_of_sp(padded3_sp(vs, l2)), jump: Some(j) },
                    l2),
                ),
            }
        } else {
            Some(
                (SourceMapItem { source: item_of_sp(padded3_sp(vs, l2)), jump: None }, l2),
            )
        },
    }
}

/// Parse every item of a source map, threading the running value.
pub open spec fn map_items_sp(items: Seq<Seq<u8>>, last: nat) -> Option<
    (Seq<SourceMapItem>, nat),
>
    decreases items.len(),
{
    if items.len() == 0 {
        Some((Seq::empty(), last))
    } else {
        match map_items_sp(items.drop_last(), last) {
            None => None,
            Some((out, l)) => match map_item_sp(split_sp(items.last(), 58), l) {
                None => None,
                Some((it, l2)) => Some((out.push(it), l2)),
            },
        }
    }
}

/// What parsing a whole source map yields.
pub open spec fn parse_source_map_sp(s: Seq<u8>) -> Option<Seq<SourceMapItem>> {
    match map_items_sp(split_sp(s, 59), 0) {
        Some((out, l)) => Some(out),
        None => None,
    }
}

/// A refused field refuses the whole field list.
proof fn lemma_fields_fold_prefix_none(raws: Seq<Seq<u8>>, last: nat, j: int)
    requires
        0 <= j <= raws.len(),
        fields_fold_sp(raws.take(j), last) is None,
    ensures
        fields_fold_sp(raws, last) is None,
    decreases raws.len() - j,
{
    if j == raws.len() {
        assert(raws.take(j) =~= raws);
    } else {
        assert(raws.take(j + 1).drop_last() =~= raws.take(j));
        lemma_fields_fold_prefix_none(raws, last, j + 1);
    }
}

/// A refused item refuses the whole span list.
proof fn lemma_source_items_prefix_none(items: Seq<Seq<u8>>, last: nat, j: int)
    requires
        0 <= j <= items.len(),
        source_items_sp(items.take(j), last) is None,
    ensures
        source_items_sp(items, last) is None,
    decreases items.len() - j,
{
    if j == items.len() {
        assert(items.take(j) =~= items);
    } else {
        assert(items.take(j + 1).drop_last() =~= items.take(j));
        lemma_source_items_prefix_none(items, last, j + 1);
    }
}

/// A refused item refuses the whole source map.
proof fn lemma_map_items_prefix_none(items: Seq<Seq<u8>>, last: nat, j: int)
    requires
        0 <= j <= items.len(),
        map_items_sp(items.take(j), last) is None,
    ensures
        map_items_sp(items, last) is None,
    decreases items.len() - j,
{
    if j == items.len() {
        assert(items.take(j) =~= items);
    } else {
        assert(items.take(j + 1).drop_last() =~= items.take(j));
        lemma_map_items_prefix_none(items, last, j + 1);
    }
}

/// The `:`-fields of one item, as vectors.
fn item_fields(item: &Vec<u8>) -> (r: Vec<Vec<u8>>)
    ensures
        r@.len() == split_sp(item@, 58).len(),
        forall|i: int| 0 <= i < r@.len() ==> (#[trigger] r@[i])@ == split_sp(item@, 58)[i],
{
    split_bytes(item.as_slice(), 58)
}

/// Fold one item's fields, returning the values and the new running
/// value — exactly `fields_fold_sp` over a prefix of the fields.
#[verifier::rlimit(100)]
#[verifier::spinoff_prover]
fn fold_fields(raws: &Vec<Vec<u8>>, upto: usize, last: usize) -> (r: Result<
    (Vec<usize>, usize),
    Error,
>)
    requires
        upto <= raws@.len(),
    ensures
        ({
            let rv = Seq::new(raws@.len(), |i: int| raws@[i]@);
            &&& (r is Ok <==> fields_fold_sp(rv.take(upto as int), last as nat) is Some)
            &&& (r is Ok ==> {
                let (vs, l2) = r->Ok_0;
                let sp = fields_fold_sp(rv.take(upto as int), last as nat)->0;
                &&& vs@.len() == sp.0.len()
                &&& (forall|i: int| 0 <= i < vs@.len() ==> vs@[i] as nat == sp.0[i])
                &&& l2 as nat == sp.1
            })
            &&& (r is Err ==> fields_fold_sp(rv, last as nat) is None)
            &&& (r is Err ==> r->Err_0 == Error::InvalidParams)
        }),
{
    let ghost rv = Seq::new(raws@.len(), |i: int| raws@[i]@);
    let mut values: Vec<usize> = Vec::new();
    let mut cur: usize = last;
    let mut k: usize = 0;
    proof {
        assert(rv.take(0) =~= Seq::<Seq<u8>>::empty());
    }
    while k < upto
        invariant
            rv == Seq::new(raws@.len(), |i: int| raws@[i]@),
            upto <= raws@.len(),
            k <= upto,
            fields_fold_sp(rv.take(k as int), last as nat) is Some,
            ({
                let sp = fields_fold_sp(rv.take(k as int), last as nat)->0;
                &&& values@.len() == sp.0.len()
                &&& (forall|i: int| 0 <= i < values@.len()
                    ==> values@[i] as nat == sp.0[i])
                &&& cur as nat == sp.1
            }),
        decreases upto - k,
    {
        proof {
            assert(rv.take(k + 1).drop_last() =~= rv.take(k as int));
            assert(rv.take(k + 1).last() == rv[k as int]);
        }
        let v = match parse_field(&raws[k], cur) {
            Ok(v) => v,
            Err(e) => {
                proof {
                    lemma_fields_fold_prefix_none(rv, last as nat, k + 1);
                    assert(rv.take(upto as int).take(k + 1) =~= rv.take(k + 1));
                    lemma_fields_fold_prefix_none(rv.take(upto as int), last as nat, k + 1);
                }
                return Err(Error::InvalidParams);
            },
        };
        values.push(v);
        if raws[k].len() > 0 {
            cur = v;
        }
        k = k + 1;
    }
    Ok((values, cur))
}

/// Pad the parsed values to three with the running value.
fn pad3(values: &Vec<usize>, last: usize) -> (r: (usize, usize, usize))
    ensures
        (r.0 as nat, r.1 as nat, r.2 as nat) == padded3_sp(
            Seq::new(values@.len(), |i: int| values@[i] as nat),
            last as nat,
        ),
{
    let a = if values.len() > 0 {
        values[0]
    } else {
        last
    };
    let b = if values.len() > 1 {
        values[1]
    } else {
        last
    };
    let c = if values.len() > 2 {
        values[2]
    } else {
        last
    };
    (a, b, c)
}

/// Parse a `;`-separated list of `offset:length:file` items; empty
/// fields, and fields missing at the end, repeat the most recent
/// value, also across items. Refused exactly when a field is neither
/// empty nor a number that fits.
#[verifier::rlimit(100)]
#[verifier::spinoff_prover]
pub fn parse_source(s: &str) -> (r: Result<Vec<SourceItem>, Error>)
    ensures
        r is Ok <==> parse_source_sp(s.spec_bytes()) is Some,
        r is Ok ==> Some(r->Ok_0@) == parse_source_sp(s.spec_bytes()),
        r is Err ==> r->Err_0 == Error::InvalidParams,
{
    let bytes = s.as_bytes();
    let items = split_bytes(bytes, 59);
    let ghost iv = split_sp(s.spec_bytes(), 59);
    let mut out: Vec<SourceItem> = Vec::new();
    let mut last: usize = 0;
    let mut i: usize = 0;
    proof {
        assert(iv.take(0) =~= Seq::<Seq<u8>>::empty());
    }
    while i < items.len()
        invariant
            items@.len() == iv.len(),
            forall|k: int| 0 <= k < iv.len() ==> (#[trigger] items@[k])@ == iv[k],
            iv == split_sp(s.spec_bytes(), 59),
            i <= iv.len(),
            source_items_sp(iv.take(i as int), 0) is Some,
            ({
                let sp = source_items_sp(iv.take(i as int), 0)->0;
                &&& out@.len() == sp.0.len()
                &&& (forall|k: int| 0 <= k < out@.len() ==> out@[k] == sp.0[k])
                &&& last as nat == sp.1
            }),
        decreases items@.len() - i,
    {
        proof {
            assert(iv.take(i + 1).drop_last() =~= iv.take(i as int));
            assert(iv.take(i + 1).last() == iv[i as int]);
        }
        let raws = item_fields(&items[i]);
        proof {
            assert(Seq::new(raws@.len(), |k: int| raws@[k]@) =~= split_sp(iv[i as int], 58));
        }
        let n = raws.len();
        let (values, l2) = match fold_fields(&raws, n, last) {
            Ok(v) => v,
            Err(e) => {
                proof {
                    let rv = Seq::new(raws@.len(), |k: int| raws@[k]@);
                    assert(rv.take(rv.len() as int) =~= rv);
                    lemma_source_items_prefix_none(iv, 0, i + 1);
                }
                return Err(Error::InvalidParams);
            },
        };
        proof {
            let rv = Seq::new(raws@.len(), |k: int| raws@[k]@);
            assert(rv.take(rv.len() as int) =~= rv);
        }
        let t = pad3(&values, l2);
        out.push(SourceItem { offset: t.0, length: t.1, file_index: t.2 });
        last = l2;
        i = i + 1;
        proof {
            let sp = source_items_sp(iv.take(i as int), 0)->0;
            assert(out@ =~= sp.0) by {
                assert(forall|k: int| 0 <= k < out@.len() - 1
                    ==> #[trigger] out@[k] == sp.0[k]);
            }
        }
    }
    proof {
        assert(iv.take(iv.len() as int) =~= iv);
    }
    Ok(out)
}

/// Parse a source map: up to four numeric fields per item, then a
/// jump marker `i`, `o` or `-`; later fields are ignored. Refused
/// exactly when a numeric field or the marker is malformed.
#[verifier::rlimit(100)]
#[verifier::spinoff_prover]
pub fn parse_source_map(s: &str) -> (r: Result<Vec<SourceMapItem>, Error>)
    ensures
        r is Ok <==> parse_source_map_sp(s.spec_bytes()) is Some,
        r is Ok ==> Some(r->Ok_0@) == parse_source_map_sp(s.spec_bytes()),
        r is Err ==> r->Err_0 == Error::InvalidParams,
{
    let bytes = s.as_bytes();
    let items = split_bytes(bytes, 59);
    let ghost iv = split_sp(s.spec_bytes(), 59);
    let mut out: Vec<SourceMapItem> = Vec::new();
    let mut last: usize = 0;
    let mut i: usize = 0;
    proof {
        assert(iv.take(0) =~= Seq::<Seq<u8>>::empty());
    }
    while i < items.len()
        invariant
            items@.len() == iv.len(),
            forall|k: int| 0 <= k < iv.len() ==> (#[trigger] items@[k])@ == iv[k],
            iv == split_sp(s.spec_bytes(), 59),
            i <= iv.len(),
            map_items_sp(iv.take(i as int), 0) is Some,
            ({
                let sp = map_items_sp(iv.take(i as int), 0)->0;
                &&& out@.len() == sp.0.len()
                &&& (forall|k: int| 0 <= k < out@.len() ==> out@[k] == sp.0[k])
                &&& last as nat == sp.1
            }),
        decreases items@.len() - i,
    {
        proof {
            assert(iv.take(i + 1).drop_last() =~= iv.take(i as int));
            assert(iv.take(i + 1).last() == iv[i as int]);
        }
        let raws = item_fields(&items[i]);
        let ghost rv = Seq::new(raws@.len(), |k: int| raws@[k]@);
        proof {
            assert(rv =~= split_sp(iv[i as int], 58));
        }
        let n = raws.len();
        let nf = if n <= 4 {
            n
        } else {
            4
        };
        let (values, l2) = match fold_fields(&raws, nf, last) {
            Ok(v) => v,
            Err(e) => {
                proof {
                    lemma_fields_fold_prefix_none(rv, last as nat, nf as int);
                    lemma_map_items_prefix_none(iv, 0, i + 1);
                }
                return Err(Error::InvalidParams);
            },
        };
        let jump: Option<JumpType> = if n > 4 {
            let raw = &raws[4];
            if raw.len() == 1 && raw[0] == 105 {
                proof {
                    assert(rv[4] =~= seq![105u8]);
                }
                Some(JumpType::FunctionIn)
            } else if raw.len() == 1 && raw[0] == 111 {
                proof {
                    assert(rv[4] =~= seq![111u8]);
                }
                Some(JumpType::FunctionOut)
            } else if raw.len() == 1 && raw[0] == 45 {
                proof {
                    assert(rv[4] =~= seq![45u8]);
                }
                Some(JumpType::Regular)
            } else {
                proof {
                    assert(rv[4] != seq![105u8] && rv[4] != seq![111u8]
                        && rv[4] != seq![45u8]) by {
                        if raw@.len() == 1 {
                            assert(rv[4] == raw@);
                        }
                    }
                    lemma_map_items_prefix_none(iv, 0, i + 1);
                }
                return Err(Error::InvalidParams);
            }
        } else {
            None
        };
        let t = pad3(&values, l2);
        out.push(SourceMapItem {
            source: SourceItem { offset: t.0, length: t.1, file_index: t.2 },
            jump,
        });
        last = l2;
        i = i + 1;
        proof {
            let sp = map_items_sp(iv.take(i as int), 0)->0;
            assert(out@ =~= sp.0) by {
                assert(forall|k: int| 0 <= k < out@.len() - 1
                    ==> #[trigger] out@[k] == sp.0[k]);
            }
        }
    }
    proof {
        assert(iv.take(iv.len() as int) =~= iv);
    }
    Ok(out)
}

} // verus!
