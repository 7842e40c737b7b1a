//! Which pages to ask the system for when a large table is allocated.
//!
//! The largest page comes first. Each attempt rounds the length up to its page, since the
//! system refuses any other length for explicit huge pages.

use vstd::prelude::*;

verus! {

pub const GB: usize = 0x4000_0000;

pub const MB2: usize = 0x20_0000;

/// The page size behind an allocation.
#[derive(Clone, Copy, Debug, PartialEq, Eq, Structural)]
pub enum PageKind {
    /// Explicit huge pages of 1 GB, from a reserved pool.
    Huge1G,
    /// Explicit huge pages of 2 MB, from a reserved pool.
    Huge2M,
    /// Transparent huge pages: a hint the system may honour.
    Thp,
    /// Ordinary pages of 4 KB.
    Base,
}

impl PageKind {
    /// The name of a page size.
    pub fn label(self) -> (s: &'static str)
        ensures
            s@ == (match self {
                PageKind::Huge1G => "1G"@,
                PageKind::Huge2M => "2M"@,
                PageKind::Thp => "THP"@,
                PageKind::Base => "4K"@,
            }),
    {
        match self {
            PageKind::Huge1G => "1G",
            PageKind::Huge2M => "2M",
            PageKind::Thp => "THP",
            PageKind::Base => "4K",
        }
    }
}

/// The least multiple of `align` that is not below `x`.
pub open spec fn rounded(x: int, align: int) -> int {
    ((x + align - 1) / align) * align
}

/// Rounds up to a multiple of `align`.
pub fn round_up(x: usize, align: usize) -> (r: usize)
    requires
        align > 0,
        x + align <= usize::MAX,
    ensures
        r == rounded(x as int, align as int),
        x <= r < x + align,
        r % align == 0,
{
    let q: usize = (x + align - 1) / align;
    proof {
        lemma_rounded(x as int, align as int);
    }
    q * align
}

/// Rounding up reaches the next multiple and no farther.
pub proof fn lemma_rounded(x: int, align: int)
    requires
        align > 0,
        x >= 0,
    ensures
        x <= rounded(x, align) < x + align,
        rounded(x, align) % align == 0,
{
    let n = x + align - 1;
    vstd::arithmetic::div_mod::lemma_fundamental_div_mod(n, align);
    vstd::arithmetic::div_mod::lemma_mod_bound(n, align);
    assert(rounded(x, align) == n - n % align) by (nonlinear_arith)
        requires
            n == align * (n / align) + n % align,
            rounded(x, align) == (n / align) * align,
    ;
    vstd::arithmetic::div_mod::lemma_mod_multiples_basic(n / align, align);
}

/// One attempt to map memory: the pages to ask for and the length.
#[derive(Clone, Copy, Debug, PartialEq, Eq, Structural)]
pub struct Attempt {
    pub kind: PageKind,
    pub len: usize,
}

/// The attempts for at least `min_bytes`, best first: gigabyte pages only past a gigabyte,
/// where rounding up is not mostly waste, then 2 MB pages, then a plain mapping hinted
/// towards transparent ones.
pub fn ladder(min_bytes: usize) -> (v: Vec<Attempt>)
    requires
        min_bytes + GB <= usize::MAX,
    ensures
        v@ == (if min_bytes >= GB {
            seq![Attempt { kind: PageKind::Huge1G, len: rounded(min_bytes as int, GB as int) as usize }]
        } else {
            Seq::empty()
        }) + seq![
            Attempt { kind: PageKind::Huge2M, len: rounded(min_bytes as int, MB2 as int) as usize },
            Attempt { kind: PageKind::Thp, len: rounded(min_bytes as int, MB2 as int) as usize },
        ],
        v@.last().kind == PageKind::Thp,
        forall|i: int| 0 <= i < v@.len() ==> (#[trigger] v@[i]).len >= min_bytes,
        forall|i: int|
            0 <= i < v@.len() && (#[trigger] v@[i]).kind == PageKind::Huge1G ==> min_bytes >= GB && v@[i].len % GB == 0,
{
    let mut v: Vec<Attempt> = Vec::new();
    if min_bytes >= GB {
        v.push(Attempt { kind: PageKind::Huge1G, len: round_up(min_bytes, GB) });
    }
    let ghost first = v@;
    let len: usize = round_up(min_bytes, MB2);
    v.push(Attempt { kind: PageKind::Huge2M, len });
    v.push(Attempt { kind: PageKind::Thp, len });
    assert(v@ =~= first + seq![
        Attempt { kind: PageKind::Huge2M, len },
        Attempt { kind: PageKind::Thp, len },
    ]);
    v
}

/// How much to give back at either end of a mapping of `len + align` bytes at `base`, so
/// that `len` bytes at an aligned base remain.
pub fn trim(base: usize, align: usize) -> (r: (usize, usize))
    requires
        align > 0,
        base + align <= usize::MAX,
    ensures
        (base + r.0) % align as int == 0,
        r.0 < align,
        r.0 + r.1 == align,
{
    let head: usize = round_up(base, align) - base;
    (head, align - head)
}

/// A length is rounded up to the next multiple and to no later one.
pub proof fn law_lengths_are_rounded_up_to_the_next_multiple(x: int, align: int, k: int)
    requires
        align > 0,
        x >= 0,
        k * align >= x,
        k >= 0,
    ensures
        x <= rounded(x, align) <= k * align,
        rounded(x, align) % align == 0,
        rounded(k * align, align) == k * align,
{
    lemma_rounded(x, align);
    lemma_rounded(k * align, align);
    let q = (x + align - 1) / align;
    assert(k * align >= x ==> q <= k) by (nonlinear_arith)
        requires
            align > 0,
            q == (x + align - 1) / align,
    ;
    assert(q * align <= k * align) by (nonlinear_arith)
        requires
            q <= k,
            align > 0,
    ;
    let r = (k * align + align - 1) / align;
    assert(r == k) by (nonlinear_arith)
        requires
            align > 0,
            r == (k * align + align - 1) / align,
    ;
}

} // verus!
