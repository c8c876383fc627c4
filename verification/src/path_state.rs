//! State primitives for grid path search: flat cell keys, per-cell costs and
//! point lists.
use vstd::prelude::*;
use crate::text::{
    all_digits, digit_char, digits_value, int_decimal, is_ws, lemma_nat_decimal_digits, nat_decimal, parse_i32,
    push_i64, str_chars, trim, trim_chars, trim_end, trim_start,
};

verus! {

// ─── Position encoding ──────────────────────────────────────────────────────

/// `a / b` rounded toward zero, as Rust's `/` on integers (for `b > 0`).
pub open spec fn div_trunc(a: int, b: int) -> int {
    if a >= 0 { a / b } else { -((-a) / b) }
}

/// `a % b` with the sign of `a`, as Rust's `%` on integers (for `b > 0`).
pub open spec fn rem_trunc(a: int, b: int) -> int {
    if a >= 0 { a % b } else { -((-a) % b) }
}

/// The flat row-major key of the cell `(x, y)` in a grid of the given width.
pub fn pos_to_key(x: i32, y: i32, width: i32) -> (k: i32)
    requires
        i32::MIN <= y * width + x <= i32::MAX,
        i32::MIN <= y * width <= i32::MAX,
    ensures
        k == y * width + x,
{
    y * width + x
}

/// The column of a flat key (0 when the width is not positive).
pub fn key_to_x(key: i32, width: i32) -> (x: i32)
    ensures
        x == (if width <= 0 { 0 } else { rem_trunc(key as int, width as int) }),
{
    if width <= 0 {
        0
    } else if key >= 0 {
        key % width
    } else {
        let m: i64 = -(key as i64);
        let r: i64 = m % (width as i64);
        (-r) as i32
    }
}

/// The row of a flat key (0 when the width is not positive).
pub fn key_to_y(key: i32, width: i32) -> (y: i32)
    ensures
        y == (if width <= 0 { 0 } else { div_trunc(key as int, width as int) }),
{
    if width <= 0 {
        0
    } else if key >= 0 {
        key / width
    } else {
        let m: i64 = -(key as i64);
        let q: i64 = m / (width as i64);
        (-q) as i32
    }
}

/// Decoding a key gives back the cell it was made from.
pub proof fn lemma_key_roundtrip(x: int, y: int, width: int)
    requires
        width > 0,
        0 <= x < width,
        y >= 0,
    ensures
        rem_trunc(y * width + x, width) == x,
        div_trunc(y * width + x, width) == y,
{
    assert(y * width >= 0) by (nonlinear_arith)
        requires
            y >= 0,
            width > 0,
    ;
    assert((y * width + x) / width == y && (y * width + x) % width == x) by (nonlinear_arith)
        requires
            width > 0,
            0 <= x < width,
            y >= 0,
    ;
}

/// The decimal text of a key.
pub fn key_to_str(key: i32) -> (s: String)
    ensures
        s@ == int_decimal(key as int),
{
    let mut s = String::new();
    push_i64(&mut s, key as i64);
    s
}

/// The key written in `s` (surrounding whitespace ignored), or -1 when `s`
/// does not hold an `i32`.
pub fn str_to_key(s: String) -> (k: i32)
    ensures
        k == (match parse_i32(trim(s@)) {
            Some(v) => v,
            None => -1i32,
        }),
{
    let cs = str_chars(s.as_str());
    let t = trim_chars(&cs);
    match crate::text::parse_i32_chars(&t) {
        Some(v) => v,
        None => -1,
    }
}

proof fn lemma_decimal_value(n: nat)
    ensures
        digits_value(nat_decimal(n)) == n,
    decreases n,
{
    let d = n % 10;
    assert(digit_char(d) as u32 - '0' as u32 == d);
    if n >= 10 {
        lemma_decimal_value(n / 10);
        let p = nat_decimal(n / 10);
        assert(nat_decimal(n).drop_last() == p);
        assert(nat_decimal(n).last() == digit_char(d));
        assert(n == (n / 10) * 10 + d);
    } else {
        assert(nat_decimal(n).drop_last() =~= Seq::<char>::empty());
        assert(digits_value(Seq::<char>::empty()) == 0);
    }
}

/// Reading back the text of a key gives the key: `str_to_key(key_to_str(k)) == k`.
pub proof fn lemma_key_str_roundtrip(k: i32)
    ensures
        parse_i32(trim(int_decimal(k as int))) == Some(k),
{
    let m: nat = if k < 0 {
        (-k) as nat
    } else {
        k as nat
    };
    lemma_nat_decimal_digits(m);
    lemma_decimal_value(m);
    let s = int_decimal(k as int);
    let d = nat_decimal(m);
    assert(!is_ws(d[0]) && !is_ws(d.last()));
    if k < 0 {
        assert(s[0] == '-');
        assert(s.last() == d.last());
        assert(s.drop_first() =~= d);
    } else {
        assert(s == d);
    }
    assert(trim_start(s) == s);
    assert(trim_end(s) == s);
    assert(all_digits(d));
}

// ─── CostData ───────────────────────────────────────────────────────────────

/// Per-cell costs; -1 means not visited.
pub type CostData = Vec<i32>;

/// `size` cells, all -1 (none when `size` is not positive).
pub fn cost_data_new(size: i32) -> (d: CostData)
    ensures
        d@.len() == (if size > 0 { size as int } else { 0 }),
        forall|i: int| 0 <= i < d@.len() ==> d@[i] == -1,
{
    let n: usize = if size > 0 { size as usize } else { 0 };
    let mut d: Vec<i32> = Vec::new();
    let mut i: usize = 0;
    while i < n
        invariant
            i <= n,
            d@.len() == i,
            forall|k: int| 0 <= k < i ==> d@[k] == -1,
        decreases n - i,
    {
        d.push(-1);
        i = i + 1;
    }
    d
}

/// Sets the cost of cell `idx`; out-of-range indices are ignored.
pub fn cost_data_set(d: &mut CostData, idx: i32, val: i32)
    ensures
        final(d)@ == costs_after_set(old(d)@, idx as int, val),
{
    if idx >= 0 {
        let i = idx as usize;
        if i < d.len() {
            d.set(i, val);
        }
    }
}

/// The cost of cell `idx`, or -1 when `idx` is out of range.
pub fn cost_data_get(d: &CostData, idx: i32) -> (v: i32)
    ensures
        v == cost_read(d@, idx as int),
{
    if idx < 0 {
        return -1;
    }
    let i = idx as usize;
    if i < d.len() {
        d[i]
    } else {
        -1
    }
}

/// The costs after `cost_data_set(d, idx, val)`.
pub open spec fn costs_after_set(d: Seq<i32>, idx: int, val: i32) -> Seq<i32> {
    if 0 <= idx < d.len() {
        d.update(idx, val)
    } else {
        d
    }
}

/// What `cost_data_get(d, j)` reads.
pub open spec fn cost_read(d: Seq<i32>, j: int) -> i32 {
    if 0 <= j < d.len() {
        d[j]
    } else {
        -1i32
    }
}

/// Reading a cell after setting one gives the value set when it is the same
/// cell and in range, and what the cell held before otherwise.
pub proof fn lemma_cost_set_get(d: Seq<i32>, idx: int, val: i32, j: int)
    ensures
        cost_read(costs_after_set(d, idx, val), j) == (if j == idx && 0 <= idx < d.len() {
            val
        } else {
            cost_read(d, j)
        }),
{
}

// ─── PointList ──────────────────────────────────────────────────────────────

/// A list of `(x, y)` points.
pub type PointList = Vec<(i32, i32)>;

/// An empty point list.
pub fn point_list_new() -> (pl: PointList)
    ensures
        pl@.len() == 0,
{
    Vec::new()
}

/// Appends the point `(x, y)`.
pub fn point_list_push(pl: &mut PointList, x: i32, y: i32)
    ensures
        final(pl)@ == old(pl)@.push((x, y)),
{
    pl.push((x, y));
}

/// The number of points.
pub fn point_list_len(pl: &PointList) -> (n: i32)
    requires
        pl@.len() <= i32::MAX,
    ensures
        n == pl@.len(),
{
    pl.len() as i32
}

/// The x of point `idx`.
pub fn point_list_get_x(pl: &PointList, idx: i32) -> (x: i32)
    requires
        0 <= idx < pl@.len(),
    ensures
        x == pl@[idx as int].0,
{
    pl[idx as usize].0
}

/// The y of point `idx`.
pub fn point_list_get_y(pl: &PointList, idx: i32) -> (y: i32)
    requires
        0 <= idx < pl@.len(),
    ensures
        y == pl@[idx as int].1,
{
    pl[idx as usize].1
}

/// An independent copy of the list.
pub fn point_list_copy(pl: &PointList) -> (c: PointList)
    ensures
        c@ == pl@,
{
    let mut c: Vec<(i32, i32)> = Vec::new();
    let mut i: usize = 0;
    while i < pl.len()
        invariant
            i <= pl@.len(),
            c@ == pl@.subrange(0, i as int),
        decreases pl@.len() - i,
    {
        c.push(pl[i]);
        assert(pl@.subrange(0, i + 1) =~= pl@.subrange(0, i as int).push(pl@[i as int]));
        i = i + 1;
    }
    assert(pl@.subrange(0, pl@.len() as int) =~= pl@);
    c
}

/// The points in reverse order.
pub fn point_list_reversed(pl: &PointList) -> (r: PointList)
    ensures
        r@ == pl@.reverse(),
{
    let mut r: Vec<(i32, i32)> = Vec::new();
    let mut i: usize = pl.len();
    while i > 0
        invariant
            i <= pl@.len(),
            r@.len() == pl@.len() - i,
            forall|k: int| 0 <= k < r@.len() ==> r@[k] == pl@[pl@.len() - 1 - k],
        decreases i,
    {
        i = i - 1;
        r.push(pl[i]);
    }
    assert(r@ =~= pl@.reverse());
    r
}

} // verus!
