//! Tables of gadgets: one record per gadget, with the fields
//! `name ; [q0, q1, ...] ; [leaf0, leaf1, ...] ; p ; [tt0, tt1, ...]`.
//!
//! The records come in topological order: a record that depends on a name introduced in the
//! current batch starts a new batch.
use vstd::prelude::*;
use crate::bits::{bits_of, bits_value, two_pow, lemma_le_value_bound};
use crate::circuit_text::{is_blank, number};
use crate::error::GadgetError;
use crate::gadget::Gadget;

verus! {

/// Splitting `s` at every byte `sep`: the finished pieces and the piece being read.
pub open spec fn cut(s: Seq<u8>, sep: u8) -> (Seq<Seq<u8>>, Seq<u8>)
    decreases s.len(),
{
    if s.len() == 0 {
        (Seq::empty(), Seq::empty())
    } else {
        let (done, cur) = cut(s.drop_last(), sep);
        if s.last() == sep {
            (done.push(cur), Seq::empty())
        } else {
            (done, cur.push(s.last()))
        }
    }
}

/// The pieces of `s` between the bytes `sep` (there is always at least one).
pub open spec fn pieces(s: Seq<u8>, sep: u8) -> Seq<Seq<u8>> {
    cut(s, sep).0.push(cut(s, sep).1)
}

/// `s` without leading and trailing bytes satisfying `strip`.
pub open spec fn trim_with(s: Seq<u8>, strip: spec_fn(u8) -> bool) -> Seq<u8>
    decreases s.len(),
{
    if s.len() == 0 {
        s
    } else if strip(s[0]) {
        trim_with(s.subrange(1, s.len() as int), strip)
    } else if strip(s.last()) {
        trim_with(s.drop_last(), strip)
    } else {
        s
    }
}

/// `s` without leading and trailing blanks.
pub open spec fn trim(s: Seq<u8>) -> Seq<u8> {
    trim_with(s, |b: u8| is_blank(b))
}

/// The list between the brackets of `[...]`, split at the commas.
pub open spec fn list_items(s: Seq<u8>) -> Option<Seq<Seq<u8>>> {
    if s.len() >= 2 && s[0] == 91 && s.last() == 93 {
        Some(pieces(s.subrange(1, s.len() - 1), 44))
    } else {
        None
    }
}

/// The name of a leaf: the item without blanks and quotes, up to its first `_`.
pub open spec fn leaf_name(item: Seq<u8>) -> Seq<u8> {
    pieces(trim(trim_with(trim(item), |b: u8| b == 39)), 95)[0]
}

/// One gadget of a table.
#[derive(Clone, Debug)]
pub struct GadgetRecord {
    pub name: Vec<u8>,
    /// The nonzero linear coefficients.
    pub q: Vec<u32>,
    /// The names of the values the gadget reads.
    pub leaves: Vec<Vec<u8>>,
    pub p: u32,
    /// The truth table, indexed by the big-endian value of the inputs.
    pub truth_table: Vec<bool>,
}

/// The coefficients of the items: each trimmed item is a number; zeros are dropped.
pub open spec fn coefficients(items: Seq<Seq<u8>>, n: int) -> Option<Seq<u32>>
    decreases n,
{
    if n <= 0 {
        Some(Seq::empty())
    } else {
        match (coefficients(items, n - 1), number(trim(items[n - 1]))) {
            (Some(qs), Some(v)) => if v > 0 { Some(qs.push(v as u32)) } else { Some(qs) },
            _ => None,
        }
    }
}

/// `r` is what the fields `f` of one record describe.
pub open spec fn record_matches(r: GadgetRecord, f: Seq<Seq<u8>>) -> bool {
    &&& f.len() >= 5
    &&& r.name@ == f[0]
    &&& list_items(f[1]) matches Some(qi) && coefficients(qi, qi.len() as int) == Some(r.q@)
    &&& list_items(f[2]) matches Some(li) && r.leaves@.len() == li.len() && forall|i: int|
        0 <= i < li.len() ==> #[trigger] r.leaves@[i]@ == leaf_name(li[i])
    &&& r.p as int == (if number(f[3]) is Some { number(f[3])->Some_0 } else { 0 })
    &&& list_items(f[4]) matches Some(ti) && r.truth_table@.len() == ti.len() && forall|i: int|
        0 <= i < ti.len() ==> #[trigger] r.truth_table@[i] == (trim(ti[i]) == seq![49u8])
}

/// The bytes of each field.
pub open spec fn field_views(fields: Vec<Vec<u8>>) -> Seq<Seq<u8>> {
    fields@.map_values(|v: Vec<u8>| v@)
}

/// The fields `f` describe a record.
pub open spec fn record_ok(f: Seq<Seq<u8>>) -> bool {
    &&& f.len() >= 5
    &&& list_items(f[1]) matches Some(qi) && coefficients(qi, qi.len() as int) is Some
    &&& list_items(f[2]) is Some
    &&& list_items(f[4]) is Some
}

} // verus!

verus! {

/// Splits `s` at every byte `sep`.
fn split_at_byte(s: &[u8], sep: u8) -> (r: Vec<Vec<u8>>)
    ensures
        r@.len() == pieces(s@, sep).len(),
        forall|i: int| 0 <= i < r@.len() ==> #[trigger] r@[i]@ == pieces(s@, sep)[i],
{
    let mut done: Vec<Vec<u8>> = Vec::new();
    let mut cur: Vec<u8> = Vec::new();
    let mut i: usize = 0;
    while i < s.len()
        invariant
            i <= s@.len(),
            done@.len() == cut(s@.subrange(0, i as int), sep).0.len(),
            forall|j: int| 0 <= j < done@.len() ==> #[trigger] done@[j]@ == cut(s@.subrange(0, i as int), sep).0[j],
            cur@ == cut(s@.subrange(0, i as int), sep).1,
        decreases s.len() - i,
    {
        let b = s[i];
        proof {
            assert(s@.subrange(0, i + 1).drop_last() =~= s@.subrange(0, i as int));
            assert(s@.subrange(0, i + 1).last() == b);
        }
        if b == sep {
            done.push(cur);
            cur = Vec::new();
        } else {
            cur.push(b);
        }
        i = i + 1;
    }
    assert(s@.subrange(0, s@.len() as int) =~= s@);
    done.push(cur);
    done
}

/// `s` without leading and trailing blanks (`quotes`: without leading and trailing `'`).
fn trim_bytes(s: &Vec<u8>, quotes: bool) -> (r: Vec<u8>)
    ensures
        r@ == if quotes { trim_with(s@, |b: u8| b == 39) } else { trim(s@) },
    decreases s@.len(),
{
    let strip = |b: u8| -> (x: bool)
        ensures
            x == if quotes { b == 39 } else { is_blank(b) },
        { if quotes { b == 39 } else { b == 32 || b == 9 || b == 13 } };
    let ghost f = if quotes { |b: u8| b == 39 } else { |b: u8| is_blank(b) };
    if s.len() == 0 {
        return Vec::new();
    }
    if strip(s[0]) {
        let mut rest: Vec<u8> = Vec::new();
        let mut i: usize = 1;
        while i < s.len()
            invariant
                1 <= i <= s@.len(),
                rest@ == s@.subrange(1, i as int),
            decreases s.len() - i,
        {
            rest.push(s[i]);
            proof {
                assert(rest@ =~= s@.subrange(1, i + 1));
            }
            i = i + 1;
        }
        return trim_bytes(&rest, quotes);
    }
    if strip(s[s.len() - 1]) {
        let mut rest: Vec<u8> = Vec::new();
        let mut i: usize = 0;
        while i < s.len() - 1
            invariant
                s@.len() > 0,
                i <= s@.len() - 1,
                rest@ == s@.subrange(0, i as int),
            decreases s.len() - 1 - i,
        {
            rest.push(s[i]);
            proof {
                assert(rest@ =~= s@.subrange(0, i + 1));
            }
            i = i + 1;
        }
        assert(rest@ =~= s@.drop_last());
        return trim_bytes(&rest, quotes);
    }
    s.clone()
}

/// The items of a bracketed list.
fn list_items_exec(s: &Vec<u8>) -> (r: Option<Vec<Vec<u8>>>)
    ensures
        r is Some <==> list_items(s@) is Some,
        r is Some ==> r->Some_0@.len() == list_items(s@)->Some_0.len() && forall|i: int|
            0 <= i < r->Some_0@.len() ==> #[trigger] r->Some_0@[i]@ == list_items(s@)->Some_0[i],
{
    if s.len() < 2 || s[0] != 91 || s[s.len() - 1] != 93 {
        return None;
    }
    let mut inner: Vec<u8> = Vec::new();
    let mut i: usize = 1;
    while i < s.len() - 1
        invariant
            s@.len() >= 2,
            1 <= i <= s@.len() - 1,
            inner@ == s@.subrange(1, i as int),
        decreases s.len() - 1 - i,
    {
        inner.push(s[i]);
        proof {
            assert(inner@ =~= s@.subrange(1, i + 1));
        }
        i = i + 1;
    }
    Some(split_at_byte(inner.as_slice(), 44))
}

/// The name of a leaf (see `leaf_name`).
fn leaf_name_exec(item: &Vec<u8>) -> (r: Vec<u8>)
    ensures
        r@ == leaf_name(item@),
{
    let a = trim_bytes(item, false);
    let b = trim_bytes(&a, true);
    let c = trim_bytes(&b, false);
    let parts = split_at_byte(c.as_slice(), 95);
    parts[0].clone()
}

/// The number that `s` spells, or 0.
fn number_or_zero(s: &Vec<u8>) -> (r: u32)
    ensures
        r as int == (if number(s@) is Some { number(s@)->Some_0 } else { 0 }),
{
    match crate::circuit_text::parse_number(s.as_slice()) {
        Some(n) => n as u32,
        None => 0,
    }
}

/// Parses the fields of one record.
pub fn parse_record(fields: &Vec<Vec<u8>>) -> (r: Result<GadgetRecord, GadgetError>)
    ensures
        r is Ok <==> record_ok(field_views(*fields)),
        r is Err ==> r->Err_0 == GadgetError::MalformedDescription,
        r is Ok ==> record_matches(r->Ok_0, field_views(*fields)),
{
    let ghost f = field_views(*fields);
    if fields.len() < 5 {
        return Err(GadgetError::MalformedDescription);
    }
    assert(f[1] == fields@[1]@ && f[2] == fields@[2]@ && f[4] == fields@[4]@ && f[0] == fields@[0]@ && f[3] == fields@[3]@);
    let qi = match list_items_exec(&fields[1]) {
        Some(v) => v,
        None => {
            return Err(GadgetError::MalformedDescription);
        },
    };
    let ghost qs = list_items(f[1])->Some_0;
    let mut q: Vec<u32> = Vec::new();
    let mut i: usize = 0;
    while i < qi.len()
        invariant
            f == field_views(*fields),
            fields@.len() >= 5,
            list_items(f[1]) is Some,
            qs == list_items(f[1])->Some_0,
            qi@.len() == qs.len(),
            forall|j: int| 0 <= j < qi@.len() ==> #[trigger] qi@[j]@ == qs[j],
            i <= qi@.len(),
            coefficients(qs, i as int) == Some(q@),
        decreases qi.len() - i,
    {
        let t = trim_bytes(&qi[i], false);
        match crate::circuit_text::parse_number(t.as_slice()) {
            Some(v) => {
                if v > 0 {
                    q.push(v as u32);
                }
            },
            None => {
                proof {
                    assert(t@ == trim(qs[i as int]));
                    assert(coefficients(qs, i as int + 1) is None);
                    lemma_coefficients_stay_none(qs, i as int + 1, qs.len() as int);
                }
                return Err(GadgetError::MalformedDescription);
            },
        }
        i = i + 1;
    }
    let li = match list_items_exec(&fields[2]) {
        Some(v) => v,
        None => {
            return Err(GadgetError::MalformedDescription);
        },
    };
    let mut leaves: Vec<Vec<u8>> = Vec::new();
    let mut i: usize = 0;
    while i < li.len()
        invariant
            f == field_views(*fields),
            li@.len() == list_items(f[2])->Some_0.len(),
            forall|j: int| 0 <= j < li@.len() ==> #[trigger] li@[j]@ == list_items(f[2])->Some_0[j],
            i <= li@.len(),
            leaves@.len() == i,
            forall|j: int| 0 <= j < i ==> #[trigger] leaves@[j]@ == leaf_name(list_items(f[2])->Some_0[j]),
        decreases li.len() - i,
    {
        leaves.push(leaf_name_exec(&li[i]));
        i = i + 1;
    }
    let p = number_or_zero(&fields[3]);
    let ti = match list_items_exec(&fields[4]) {
        Some(v) => v,
        None => {
            return Err(GadgetError::MalformedDescription);
        },
    };
    let mut tt: Vec<bool> = Vec::new();
    let mut i: usize = 0;
    while i < ti.len()
        invariant
            f == field_views(*fields),
            ti@.len() == list_items(f[4])->Some_0.len(),
            forall|j: int| 0 <= j < ti@.len() ==> #[trigger] ti@[j]@ == list_items(f[4])->Some_0[j],
            i <= ti@.len(),
            tt@.len() == i,
            forall|j: int| 0 <= j < i ==> #[trigger] tt@[j] == (trim(list_items(f[4])->Some_0[j]) == seq![49u8]),
        decreases ti.len() - i,
    {
        let t = trim_bytes(&ti[i], false);
        let one = t.len() == 1 && t[0] == 49;
        proof {
            if one {
                assert(t@ =~= seq![49u8]);
            }
            if t@ == seq![49u8] {
                assert(t@[0] == 49u8);
            }
        }
        tt.push(one);
        i = i + 1;
    }
    Ok(GadgetRecord { name: fields[0].clone(), q, leaves, p, truth_table: tt })
}

/// Once an item is not a number, no longer list of coefficients parses.
proof fn lemma_coefficients_stay_none(items: Seq<Seq<u8>>, a: int, b: int)
    requires
        1 <= a <= b,
        coefficients(items, a) is None,
    ensures
        coefficients(items, b) is None,
    decreases b - a,
{
    if a < b {
        lemma_coefficients_stay_none(items, a, b - 1);
    }
}

} // verus!

verus! {

/// Record `r` reads a value named in `batch`.
pub open spec fn depends_on_batch(r: GadgetRecord, batch: Seq<usize>, rs: Seq<GadgetRecord>) -> bool {
    exists|i: int, j: int|
        0 <= i < r.leaves@.len() && 0 <= j < batch.len() && #[trigger] r.leaves@[i]@ == #[trigger] rs[batch[j] as int].name@
}

/// The batches of the first `n` records: each record joins the last batch unless it reads a
/// value named there, in which case it starts a new one.
pub open spec fn batches(rs: Seq<GadgetRecord>, n: int) -> Seq<Seq<usize>>
    decreases n,
{
    if n <= 0 {
        seq![Seq::empty()]
    } else {
        let t = batches(rs, n - 1);
        if depends_on_batch(rs[n - 1], t.last(), rs) {
            t.push(seq![(n - 1) as usize])
        } else {
            t.update(t.len() - 1, t.last().push((n - 1) as usize))
        }
    }
}

/// Batches hold indices below `n`, and there is at least one.
proof fn lemma_batches_shape(rs: Seq<GadgetRecord>, n: int)
    requires
        n >= 0,
    ensures
        batches(rs, n).len() >= 1,
        forall|i: int, j: int| 0 <= i < batches(rs, n).len() && 0 <= j < batches(rs, n)[i].len() ==> (#[trigger] batches(rs, n)[i][j]) < n,
    decreases n,
{
    if n > 0 {
        lemma_batches_shape(rs, n - 1);
    }
}

/// The truth table indexed by the little-endian value of the inputs, from one indexed by the
/// big-endian value.
pub open spec fn little_endian_table(tt: Seq<bool>, k: nat) -> Seq<bool> {
    Seq::new(two_pow(k), |x: int| tt[bits_value(bits_of(x as nat, k, false), true) as int])
}

/// Record `rec` describes a gadget that can be built: fewer than 32 inputs, a truth table of at
/// least `2^k` entries, and valid encodings with consistent residues.
pub open spec fn record_gadget_ok(rec: GadgetRecord) -> bool {
    &&& rec.q@.len() < 32
    &&& rec.truth_table@.len() >= two_pow(rec.q@.len())
    &&& crate::gadget::truth_table_gadget_ok(rec.q@, 1, rec.p, rec.p, rec.q@.len(), little_endian_table(rec.truth_table@, rec.q@.len()))
}

/// `g` is the gadget of record `rec`.
pub open spec fn built_from(g: Gadget, rec: GadgetRecord) -> bool {
    &&& g.wf()
    &&& g.size() == rec.q@.len()
    &&& g.inputs().len() == rec.q@.len()
    &&& forall|j: int| 0 <= j < rec.q@.len() ==> crate::gadget::is_canonical_of(#[trigger] g.inputs()[j], rec.q@[j], rec.p)
    &&& crate::gadget::is_canonical_of(g.out(), 1, rec.p)
    &&& g.table() == little_endian_table(rec.truth_table@, rec.q@.len())
}

/// Whether `a` and `b` hold the same bytes.
fn bytes_eq(a: &Vec<u8>, b: &Vec<u8>) -> (r: bool)
    ensures
        r == (a@ == b@),
{
    if a.len() != b.len() {
        return false;
    }
    let mut i: usize = 0;
    while i < a.len()
        invariant
            a@.len() == b@.len(),
            i <= a@.len(),
            forall|j: int| 0 <= j < i ==> a@[j] == b@[j],
        decreases a.len() - i,
    {
        if a[i] != b[i] {
            return false;
        }
        i = i + 1;
    }
    assert(a@ =~= b@);
    true
}

/// Whether `r` reads a value named by one of the records of `batch`.
fn reads_from(r: &GadgetRecord, batch: &Vec<usize>, rs: &Vec<GadgetRecord>) -> (d: bool)
    requires
        forall|j: int| 0 <= j < batch@.len() ==> (#[trigger] batch@[j]) < rs@.len(),
    ensures
        d == depends_on_batch(*r, batch@, rs@),
{
    let mut i: usize = 0;
    while i < r.leaves.len()
        invariant
            forall|j: int| 0 <= j < batch@.len() ==> (#[trigger] batch@[j]) < rs@.len(),
            i <= r.leaves@.len(),
            forall|a: int, b: int| 0 <= a < i && 0 <= b < batch@.len() ==> #[trigger] r.leaves@[a]@ != #[trigger] rs@[batch@[b] as int].name@,
        decreases r.leaves.len() - i,
    {
        let mut j: usize = 0;
        while j < batch.len()
            invariant
                forall|j: int| 0 <= j < batch@.len() ==> (#[trigger] batch@[j]) < rs@.len(),
                i < r.leaves@.len(),
                j <= batch@.len(),
                forall|a: int, b: int| 0 <= a < i && 0 <= b < batch@.len() ==> #[trigger] r.leaves@[a]@ != #[trigger] rs@[batch@[b] as int].name@,
                forall|b: int| 0 <= b < j ==> r.leaves@[i as int]@ != #[trigger] rs@[batch@[b] as int].name@,
            decreases batch.len() - j,
        {
            if bytes_eq(&r.leaves[i], &rs[batch[j]].name) {
                assert(r.leaves@[i as int]@ == rs@[batch@[j as int] as int].name@);
                return true;
            }
            j = j + 1;
        }
        i = i + 1;
    }
    false
}

/// Parses a table given as records of fields. Fails with `MalformedDescription` exactly when
/// some record does not follow the grammar; otherwise returns the records and their batches.
pub fn parse_gadget_table(records: &Vec<Vec<Vec<u8>>>) -> (r: Result<(Vec<GadgetRecord>, Vec<Vec<usize>>), GadgetError>)
    ensures
        r is Ok <==> forall|i: int| 0 <= i < records@.len() ==> record_ok(field_views(#[trigger] records@[i])),
        r is Err ==> r->Err_0 == GadgetError::MalformedDescription,
        r is Ok ==> ({
            let (rs, bs) = r->Ok_0;
            &&& rs@.len() == records@.len()
            &&& forall|i: int| 0 <= i < rs@.len() ==> record_matches(#[trigger] rs@[i], field_views(records@[i]))
            &&& bs@.len() == batches(rs@, rs@.len() as int).len()
            &&& forall|i: int| 0 <= i < bs@.len() ==> #[trigger] bs@[i]@ == batches(rs@, rs@.len() as int)[i]
        }),
{
    let mut rs: Vec<GadgetRecord> = Vec::new();
    let mut i: usize = 0;
    while i < records.len()
        invariant
            i <= records@.len(),
            rs@.len() == i,
            forall|j: int| 0 <= j < i ==> record_ok(field_views(#[trigger] records@[j])),
            forall|j: int| 0 <= j < i ==> record_matches(#[trigger] rs@[j], field_views(records@[j])),
        decreases records.len() - i,
    {
        let rec = parse_record(&records[i])?;
        rs.push(rec);
        i = i + 1;
    }
    let mut bs: Vec<Vec<usize>> = vec![Vec::new()];
    assert(bs@.len() == 1 && bs@[0]@ =~= batches(rs@, 0)[0]);
    let mut n: usize = 0;
    while n < rs.len()
        invariant
            n <= rs@.len(),
            bs@.len() == batches(rs@, n as int).len(),
            forall|k: int| 0 <= k < bs@.len() ==> #[trigger] bs@[k]@ == batches(rs@, n as int)[k],
        decreases rs.len() - n,
    {
        proof {
            lemma_batches_shape(rs@, n as int);
        }
        let last = bs.len() - 1;
        assert(bs@[last as int]@ == batches(rs@, n as int).last());
        if reads_from(&rs[n], &bs[last], &rs) {
            bs.push(vec![n]);
            proof {
                assert(bs@[bs@.len() - 1]@ =~= seq![n]);
                assert(bs@.len() == batches(rs@, n + 1).len());
                assert forall|k: int| 0 <= k < bs@.len() implies #[trigger] bs@[k]@ == batches(rs@, n + 1)[k] by {
                    if k == bs@.len() - 1 {
                        assert(bs@[k]@ =~= batches(rs@, n + 1)[k]);
                    }
                }
            }
        } else {
            let mut b = bs[last].clone();
            b.push(n);
            bs.set(last, b);
            proof {
                assert forall|k: int| 0 <= k < bs@.len() implies #[trigger] bs@[k]@ == batches(rs@, n + 1)[k] by {
                    if k == last {
                        assert(bs@[k]@ =~= batches(rs@, n + 1)[k]);
                    }
                }
            }
        }
        n = n + 1;
    }
    Ok((rs, bs))
}

/// The gadget of each record: coefficients `q` over `Z/p`, output `{0}, {1}` over `Z/p`, and
/// the function read from the truth table. Fails with `MalformedDescription` when a table is
/// too short for the number of inputs (or there are 32 inputs or more), and with the gadget's
/// error when the record does not describe a valid gadget.
pub fn build_gadgets(records: &Vec<GadgetRecord>) -> (r: Result<Vec<Gadget>, GadgetError>)
    ensures
        r is Ok <==> forall|i: int| 0 <= i < records@.len() ==> record_gadget_ok(#[trigger] records@[i]),
        r is Ok ==> r->Ok_0@.len() == records@.len() && forall|i: int| 0 <= i < records@.len() ==> built_from(#[trigger] r->Ok_0@[i], records@[i]),
        r matches Err(e) ==> e == GadgetError::MalformedDescription || e == GadgetError::EncodingInvalid
            || e == GadgetError::GadgetIntermediateInconsistent,
{
    let mut out: Vec<Gadget> = Vec::new();
    let mut i: usize = 0;
    while i < records.len()
        invariant
            i <= records@.len(),
            out@.len() == i,
            forall|m: int| 0 <= m < i ==> built_from(#[trigger] out@[m], records@[m]),
            forall|m: int| 0 <= m < i ==> record_gadget_ok(#[trigger] records@[m]),
        decreases records.len() - i,
    {
        let rec = &records[i];
        let k = rec.q.len();
        if k >= 32 {
            return Err(GadgetError::MalformedDescription);
        }
        let table = le_table(&rec.truth_table, k as u32)?;
        let g = Gadget::from_truth_table(rec.q.clone(), 1, rec.p, rec.p, k as u32, table)?;
        assert(built_from(g, *rec));
        out.push(g);
        i = i + 1;
    }
    Ok(out)
}

/// The table indexed little-endian, from `tt` indexed big-endian; fails with
/// `MalformedDescription` when `tt` has fewer than `2^k` entries.
fn le_table(tt: &Vec<bool>, k: u32) -> (r: Result<Vec<bool>, GadgetError>)
    requires
        k < 32,
    ensures
        r is Ok <==> tt@.len() >= two_pow(k as nat),
        r is Err ==> r->Err_0 == GadgetError::MalformedDescription,
        r is Ok ==> r->Ok_0@ == little_endian_table(tt@, k as nat),
{
    proof {
        crate::bits::lemma_two_pow_mono(k as nat, 32);
        reveal_with_fuel(two_pow, 33);
    }
    let n: u64 = 1u64 << k;
    proof {
        lemma_shift_pow(k);
    }
    if (tt.len() as u64) < n {
        return Err(GadgetError::MalformedDescription);
    }
    let mut out: Vec<bool> = Vec::new();
    let mut x: u64 = 0;
    while x < n
        invariant
            k < 32,
            n as nat == two_pow(k as nat),
            n <= 0x1_0000_0000,
            tt@.len() >= n,
            x <= n,
            out@.len() == x,
            forall|y: int| 0 <= y < x ==> #[trigger] out@[y] == tt[bits_value(bits_of(y as nat, k as nat, false), true) as int],
        decreases n - x,
    {
        let v = crate::bits::int_to_vec_bool(x as usize, k as usize, false);
        proof {
            lemma_le_value_bound(crate::bits::reversed(v@));
        }
        let idx = crate::bits::vec_bool_to_int(v, true);
        out.push(tt[idx]);
        x = x + 1;
    }
    assert(out@ =~= little_endian_table(tt@, k as nat));
    Ok(out)
}

/// `1 << k == 2^k` for `k < 32`.
proof fn lemma_shift_pow(k: u32)
    requires
        k < 32,
    ensures
        (1u64 << k) as nat == two_pow(k as nat),
    decreases k,
{
    if k == 0 {
        assert((1u64 << 0u32) == 1u64) by (bit_vector);
    } else {
        lemma_shift_pow((k - 1) as u32);
        assert((1u64 << k) == 2 * (1u64 << ((k - 1) as u32))) by (bit_vector)
            requires
                0 < k < 32,
        ;
    }
}

} // verus!
