use vstd::prelude::*;

verus! {

/// Decimal value of an ASCII digit string.
pub open spec fn digits_value(s: Seq<u8>) -> int
    decreases s.len(),
{
    if s.len() == 0 {
        0
    } else {
        10 * digits_value(s.drop_last()) + (s.last() - 48)
    }
}

proof fn lemma_digits_nonneg(s: Seq<u8>)
    requires
        forall|i: int| 0 <= i < s.len() ==> 48 <= #[trigger] s[i] <= 57,
    ensures
        digits_value(s) >= 0,
    decreases s.len(),
{
    if s.len() > 0 {
        lemma_digits_nonneg(s.drop_last());
    }
}

/// A digit string's value only grows as digits are appended.
proof fn lemma_digits_take_le(s: Seq<u8>, j: int)
    requires
        forall|i: int| 0 <= i < s.len() ==> 48 <= #[trigger] s[i] <= 57,
        0 <= j <= s.len(),
    ensures
        0 <= digits_value(s.take(j)) <= digits_value(s),
    decreases s.len() - j,
{
    assert(forall|i: int| 0 <= i < s.take(j).len() ==> 48 <= #[trigger] s.take(j)[i] <= 57);
    lemma_digits_nonneg(s.take(j));
    if j == s.len() {
        assert(s.take(j) =~= s);
    } else {
        lemma_digits_take_le(s, j + 1);
        assert(s.take(j + 1).drop_last() =~= s.take(j));
        assert(s.take(j + 1).last() == s[j]);
        assert(digits_value(s.take(j + 1)) == 10 * digits_value(s.take(j)) + (s[j] - 48));
    }
}

/// Read an unsigned decimal number from ASCII digits, as the clue texts of
/// the input hold it.
pub fn parse(bytes: &[u8]) -> (v: u8)
    requires
        forall|i: int| 0 <= i < bytes@.len() ==> 48 <= #[trigger] bytes@[i] <= 57,
        digits_value(bytes@) <= 255,
    ensures
        v as int == digits_value(bytes@),
{
    let mut val: u8 = 0;
    let mut i: usize = 0;
    proof {
        assert(bytes@.take(0) =~= Seq::<u8>::empty());
    }
    while i < bytes.len()
        invariant
            forall|j: int| 0 <= j < bytes@.len() ==> 48 <= #[trigger] bytes@[j] <= 57,
            digits_value(bytes@) <= 255,
            i <= bytes@.len(),
            val as int == digits_value(bytes@.take(i as int)),
        decreases bytes@.len() - i,
    {
        proof {
            lemma_digits_take_le(bytes@, i + 1);
            assert(bytes@.take(i + 1).drop_last() =~= bytes@.take(i as int));
            assert(bytes@.take(i + 1).last() == bytes@[i as int]);
        }
        val = 10 * val + (bytes[i] - 48);
        i += 1;
    }
    proof {
        assert(bytes@.take(bytes@.len() as int) =~= bytes@);
    }
    val
}

/// The attribute key `class`, as bytes.
pub open spec fn class_key() -> Seq<u8> {
    seq![99u8, 108u8, 97u8, 115u8, 115u8]
}

/// The marker prefix `loop-task-cell`, as bytes.
pub open spec fn cell_marker() -> Seq<u8> {
    seq![108u8, 111u8, 111u8, 112u8, 45u8, 116u8, 97u8, 115u8, 107u8, 45u8, 99u8, 101u8, 108u8, 108u8]
}

/// The attribute key `style`, as bytes.
pub open spec fn style_key() -> Seq<u8> {
    seq![115u8, 116u8, 121u8, 108u8, 101u8]
}

fn class_key_exec() -> (v: Vec<u8>)
    ensures
        v@ == class_key(),
{
    let mut v: Vec<u8> = Vec::new();
    v.push(99);
    v.push(108);
    v.push(97);
    v.push(115);
    v.push(115);
    proof {
        assert(v@ =~= class_key());
    }
    v
}

fn cell_marker_exec() -> (v: Vec<u8>)
    ensures
        v@ == cell_marker(),
{
    let mut v: Vec<u8> = Vec::new();
    v.push(108);
    v.push(111);
    v.push(111);
    v.push(112);
    v.push(45);
    v.push(116);
    v.push(97);
    v.push(115);
    v.push(107);
    v.push(45);
    v.push(99);
    v.push(101);
    v.push(108);
    v.push(108);
    proof {
        assert(v@ =~= cell_marker());
    }
    v
}

fn style_key_exec() -> (v: Vec<u8>)
    ensures
        v@ == style_key(),
{
    let mut v: Vec<u8> = Vec::new();
    v.push(115);
    v.push(116);
    v.push(121);
    v.push(108);
    v.push(101);
    proof {
        assert(v@ =~= style_key());
    }
    v
}

fn bytes_eq(a: &Vec<u8>, b: &Vec<u8>) -> (r: bool)
    ensures
        r == (a@ == b@),
{
    if a.len() != b.len() {
        return false;
    }
    let mut i: usize = 0;
    while i < a.len()
        invariant
            a@.len() == b@.len(),
            i <= a@.len(),
            forall|j: int| 0 <= j < i ==> a@[j] == b@[j],
        decreases a@.len() - i,
    {
        if a[i] != b[i] {
            return false;
        }
        i += 1;
    }
    proof {
        assert(a@ =~= b@);
    }
    true
}

fn has_prefix(v: &Vec<u8>, p: &Vec<u8>) -> (r: bool)
    ensures
        r == p@.is_prefix_of(v@),
{
    if v.len() < p.len() {
        return false;
    }
    let mut i: usize = 0;
    while i < p.len()
        invariant
            p@.len() <= v@.len(),
            i <= p@.len(),
            forall|j: int| 0 <= j < i ==> p@[j] == v@[j],
        decreases p@.len() - i,
    {
        if p[i] != v[i] {
            proof {
                assert(p@[i as int] != v@.subrange(0, p@.len() as int)[i as int]);
            }
            return false;
        }
        i += 1;
    }
    proof {
        assert(p@ =~= v@.subrange(0, p@.len() as int));
    }
    true
}

/// An attribute marking a puzzle cell: key `class` with a value starting
/// with the cell marker.
pub open spec fn is_cell_attr(key: Seq<u8>, value: Seq<u8>) -> bool {
    key == class_key() && cell_marker().is_prefix_of(value)
}

/// Whether an element's attribute list marks it as a puzzle cell.
pub fn is_cell(attrs: &Vec<(Vec<u8>, Vec<u8>)>) -> (r: bool)
    ensures
        r == exists|i: int|
            0 <= i < attrs@.len() && is_cell_attr((#[trigger] attrs@[i]).0@, attrs@[i].1@),
{
    let ck = class_key_exec();
    let marker = cell_marker_exec();
    let mut i: usize = 0;
    while i < attrs.len()
        invariant
            ck@ == class_key(),
            marker@ == cell_marker(),
            i <= attrs@.len(),
            forall|j: int|
                0 <= j < i ==> !is_cell_attr((#[trigger] attrs@[j]).0@, attrs@[j].1@),
        decreases attrs@.len() - i,
    {
        let hit = bytes_eq(&attrs[i].0, &ck) && has_prefix(&attrs[i].1, &marker);
        if hit {
            return true;
        }
        i += 1;
    }
    false
}

/// The value of the first `style` attribute, if any. The original treats a
/// missing style as a fatal input error; here the caller decides.
pub fn style(attrs: &Vec<(Vec<u8>, Vec<u8>)>) -> (r: Option<Vec<u8>>)
    ensures
        match r {
            Some(v) => exists|i: int|
                {
                    &&& 0 <= i < attrs@.len()
                    &&& (#[trigger] attrs@[i]).0@ == style_key()
                    &&& v@ == attrs@[i].1@
                    &&& forall|j: int| 0 <= j < i ==> (#[trigger] attrs@[j]).0@ != style_key()
                },
            None => forall|i: int| 0 <= i < attrs@.len() ==> (#[trigger] attrs@[i]).0@ != style_key(),
        },
{
    let sk = style_key_exec();
    let mut i: usize = 0;
    while i < attrs.len()
        invariant
            sk@ == style_key(),
            i <= attrs@.len(),
            forall|j: int| 0 <= j < i ==> (#[trigger] attrs@[j]).0@ != style_key(),
        decreases attrs@.len() - i,
    {
        if bytes_eq(&attrs[i].0, &sk) {
            let mut out: Vec<u8> = Vec::new();
            let src = &attrs[i].1;
            let mut k: usize = 0;
            while k < src.len()
                invariant
                    k <= src@.len(),
                    out@ =~= src@.take(k as int),
                decreases src@.len() - k,
            {
                out.push(src[k]);
                k += 1;
            }
            proof {
                assert(src@.take(src@.len() as int) =~= src@);
            }
            return Some(out);
        }
        i += 1;
    }
    None
}

} // verus!
