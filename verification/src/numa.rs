//! NUMA topology and the placement of threads.
//!
//! Two localities matter: the node, where a memory controller lives, and the finer L3
//! domain, whose cores share a cache. What the system tells of them is read elsewhere and
//! arrives here as text.

use vstd::prelude::*;

use crate::chess::bitboard::{self, Bitboard};
use crate::chess::types::Square;
use crate::text;

verus! {

/// The machine's locality map: memory domains and the cache domains that subdivide them.
#[derive(Debug)]
pub struct NumaTopology {
    pub nodes: Vec<Vec<usize>>,
    pub domains: Vec<Vec<usize>>,
}

/// What the system reports.
pub struct Readings {
    /// The processors the process may run on, if the system tells.
    pub affinity: Option<Vec<usize>>,
    /// The list of processors that are online.
    pub online: Option<Vec<char>>,
    /// How many threads run at once.
    pub parallelism: usize,
    /// The processor list of each memory node; `None` where one could not be read.
    pub node_lists: Option<Vec<Vec<char>>>,
    /// For each processor, the list of those it shares its L3 cache with.
    pub l3_lists: Vec<Option<Vec<char>>>,
}

/// The place of the first `sep` in `s` at or after `i`, or its end.
pub open spec fn next_at(s: Seq<char>, sep: char, i: int) -> int
    decreases s.len() - i,
{
    if i < 0 || i >= s.len() {
        s.len() as int
    } else if s[i] == sep {
        i
    } else {
        next_at(s, sep, i + 1)
    }
}

/// Blanks at the front are dropped.
pub open spec fn skip_blanks(s: Seq<char>) -> Seq<char>
    decreases s.len(),
{
    if s.len() > 0 && text::blank(s[0]) {
        skip_blanks(s.subrange(1, s.len() as int))
    } else {
        s
    }
}

/// Blanks at the back are dropped.
pub open spec fn drop_blanks(s: Seq<char>) -> Seq<char>
    decreases s.len(),
{
    if s.len() > 0 && text::blank(s.last()) {
        drop_blanks(s.drop_last())
    } else {
        s
    }
}

/// The text without blanks around it.
pub open spec fn trimmed(s: Seq<char>) -> Seq<char> {
    drop_blanks(skip_blanks(s))
}

/// The number a word spells, with or without a plus sign, if it fits.
pub open spec fn cpu(s: Seq<char>) -> Option<int> {
    match text::unsigned(s) {
        Some(x) => if x <= usize::MAX {
            Some(x)
        } else {
            None
        },
        None => None,
    }
}

/// The numbers from `lo` to `hi`, both included.
pub open spec fn span(lo: int, hi: int) -> Seq<usize> {
    if lo <= hi {
        Seq::new((hi - lo + 1) as nat, |i: int| (lo + i) as usize)
    } else {
        Seq::empty()
    }
}

/// What one part of a list names: a number, a range, or nothing.
pub open spec fn part_cpus(p: Seq<char>) -> Seq<usize> {
    let d = next_at(p, '-', 0);
    if d < p.len() {
        match (cpu(p.subrange(0, d)), cpu(p.subrange(d + 1, p.len() as int))) {
            (Some(lo), Some(hi)) => span(lo, hi),
            _ => Seq::empty(),
        }
    } else {
        match cpu(p) {
            Some(c) => seq![c as usize],
            None => Seq::empty(),
        }
    }
}

/// The processors that the list `s` names from place `i` on.
pub open spec fn list_from(s: Seq<char>, i: int) -> Seq<usize>
    decreases s.len() - i,
{
    if i < 0 || i > s.len() {
        Seq::empty()
    } else {
        let e = next_at(s, ',', i);
        if e < i {
            Seq::empty()
        } else {
            part_cpus(trimmed(s.subrange(i, e))) + (if e < s.len() {
                list_from(s, e + 1)
            } else {
                Seq::empty()
            })
        }
    }
}

/// The processors a list such as `0-15,128-143` names, in order.
pub open spec fn list(s: Seq<char>) -> Seq<usize> {
    list_from(s, 0)
}

proof fn lemma_next_at(s: Seq<char>, sep: char, i: int)
    requires
        0 <= i <= s.len(),
    ensures
        i <= next_at(s, sep, i) <= s.len(),
        next_at(s, sep, i) < s.len() ==> s[next_at(s, sep, i)] == sep,
    decreases s.len() - i,
{
    if i < s.len() && s[i] != sep {
        lemma_next_at(s, sep, i + 1);
    }
}

fn find(s: &Vec<char>, sep: char, from: usize) -> (e: usize)
    requires
        from <= s@.len(),
    ensures
        e == next_at(s@, sep, from as int),
        from <= e <= s@.len(),
{
    let mut i: usize = from;
    while i < s.len()
        invariant
            from <= i <= s@.len(),
            next_at(s@, sep, i as int) == next_at(s@, sep, from as int),
        decreases s@.len() - i,
    {
        if s[i] == sep {
            return i;
        }
        i = i + 1;
    }
    i
}

/// The characters of `s` from `lo` to `hi`.
fn slice(s: &Vec<char>, lo: usize, hi: usize) -> (v: Vec<char>)
    requires
        lo <= hi <= s@.len(),
    ensures
        v@ == s@.subrange(lo as int, hi as int),
{
    let mut v: Vec<char> = Vec::new();
    let mut i: usize = lo;
    while i < hi
        invariant
            lo <= i <= hi <= s@.len(),
            v@ == s@.subrange(lo as int, i as int),
        decreases hi - i,
    {
        v.push(s[i]);
        i = i + 1;
        assert(s@.subrange(lo as int, i as int) =~= s@.subrange(lo as int, i - 1).push(s@[i - 1]));
    }
    v
}

fn trim(s: &Vec<char>) -> (v: Vec<char>)
    ensures
        v@ == trimmed(s@),
{
    let mut lo: usize = 0;
    assert(s@.subrange(0, s@.len() as int) =~= s@);
    while lo < s.len() && text::is_blank(s[lo])
        invariant
            lo <= s@.len(),
            skip_blanks(s@.subrange(lo as int, s@.len() as int)) == skip_blanks(s@),
        decreases s@.len() - lo,
    {
        proof {
            let t = s@.subrange(lo as int, s@.len() as int);
            assert(t.subrange(1, t.len() as int) =~= s@.subrange(lo + 1, s@.len() as int));
        }
        lo = lo + 1;
    }
    let ghost front = s@.subrange(lo as int, s@.len() as int);
    assert(skip_blanks(s@) == front);
    let mut hi: usize = s.len();
    while lo < hi && text::is_blank(s[hi - 1])
        invariant
            lo <= hi <= s@.len(),
            drop_blanks(s@.subrange(lo as int, hi as int)) == drop_blanks(front),
        decreases hi,
    {
        proof {
            let t = s@.subrange(lo as int, hi as int);
            assert(t.drop_last() =~= s@.subrange(lo as int, hi - 1));
        }
        hi = hi - 1;
    }
    slice(s, lo, hi)
}

/// [`cpu`].
fn read_cpu(s: &Vec<char>) -> (r: Option<usize>)
    ensures
        match r {
            Some(x) => cpu(s@) == Some(x as int),
            None => cpu(s@) is None,
        },
{
    match text::unsigned_of(s) {
        Some(x) => if x <= usize::MAX as u64 {
            Some(x as usize)
        } else {
            None
        },
        None => None,
    }
}

/// Adds what one part of a list names.
fn read_part(p: &Vec<char>, out: &mut Vec<usize>)
    ensures
        final(out)@ == old(out)@ + part_cpus(p@),
{
    let d: usize = find(p, '-', 0);
    let ghost before = out@;
    if d < p.len() {
        let lo = read_cpu(&slice(p, 0, d));
        let hi = read_cpu(&slice(p, d + 1, p.len()));
        if let (Some(lo), Some(hi)) = (lo, hi) {
            let mut c: u128 = lo as u128;
            while c <= hi as u128
                invariant
                    lo <= c,
                    c <= hi + 1 || c == lo,
                    out@ == before + Seq::new((c - lo) as nat, |i: int| (lo + i) as usize),
                decreases hi + 1 - c,
            {
                let ghost mid = out@;
                out.push(c as usize);
                c = c + 1;
                assert(out@ =~= before + Seq::new((c - lo) as nat, |i: int| (lo + i) as usize));
            }
            assert(out@ =~= before + span(lo as int, hi as int));
        } else {
            assert(out@ =~= before + part_cpus(p@));
        }
    } else {
        match read_cpu(p) {
            Some(c) => {
                out.push(c);
                assert(out@ =~= before + seq![c]);
            },
            None => {
                assert(out@ =~= before + part_cpus(p@));
            },
        }
    }
}

/// The processors a list such as `0-15,128-143` names, in order; parts that name none are
/// passed over.
pub fn parse_cpu_chars(s: &Vec<char>) -> (v: Vec<usize>)
    ensures
        v@ == list(s@),
{
    let mut v: Vec<usize> = Vec::new();
    let mut i: usize = 0;
    assert(v@ + list_from(s@, 0) =~= list(s@));
    loop
        invariant
            i <= s@.len(),
            v@ + list_from(s@, i as int) == list(s@),
        decreases s@.len() - i,
    {
        let e: usize = find(s, ',', i);
        let part = trim(&slice(s, i, e));
        let ghost before = v@;
        read_part(&part, &mut v);
        if e >= s.len() {
            assert(v@ =~= list(s@));
            return v;
        }
        assert(v@ + list_from(s@, e + 1) =~= before + (part_cpus(trimmed(s@.subrange(i as int, e as int))) + list_from(
            s@,
            e + 1,
        )));
        i = e + 1;
    }
}

/// Reads a list of processors.
pub fn parse_cpu_list(s: &str) -> (v: Vec<usize>)
    ensures
        v@ == list(s@),
{
    parse_cpu_chars(&text::chars_of(s))
}

fn holds(v: &Vec<usize>, x: usize) -> (r: bool)
    ensures
        r == v@.contains(x),
{
    let mut i: usize = 0;
    while i < v.len()
        invariant
            i <= v@.len(),
            forall|j: int| 0 <= j < i ==> v@[j] != x,
        decreases v@.len() - i,
    {
        if v[i] == x {
            return true;
        }
        i = i + 1;
    }
    false
}

/// Those of `v` that are allowed, in order.
pub open spec fn allowed_of(v: Seq<usize>, allowed: Seq<usize>) -> Seq<usize> {
    v.filter(|c: usize| allowed.contains(c))
}

fn keep_allowed(v: &Vec<usize>, allowed: &Vec<usize>) -> (r: Vec<usize>)
    ensures
        r@ == allowed_of(v@, allowed@),
{
    let mut r: Vec<usize> = Vec::new();
    let mut i: usize = 0;
    let ghost keep = |c: usize| allowed@.contains(c);
    proof {
        reveal_with_fuel(Seq::filter, 1);
        assert(v@.subrange(0, 0).filter(keep) =~= Seq::<usize>::empty()) by {
            reveal(Seq::filter);
        }
    }
    while i < v.len()
        invariant
            i <= v@.len(),
            keep == (|c: usize| allowed@.contains(c)),
            r@ == v@.subrange(0, i as int).filter(keep),
        decreases v@.len() - i,
    {
        let c: usize = v[i];
        proof {
            reveal(Seq::filter);
            let t = v@.subrange(0, i + 1);
            assert(t.drop_last() =~= v@.subrange(0, i as int));
            assert(t.last() == c);
        }
        if holds(allowed, c) {
            r.push(c);
        }
        i = i + 1;
    }
    assert(v@.subrange(0, v@.len() as int) =~= v@);
    r
}

/// The domains named by lists of processors, allowed ones only, empty ones left out.
pub open spec fn domains_of(lists: Seq<Vec<char>>, allowed: Seq<usize>, n: nat) -> Seq<Seq<usize>>
    decreases n,
{
    if n == 0 {
        Seq::empty()
    } else {
        let g = allowed_of(list(lists[n - 1]@), allowed);
        let rest = domains_of(lists, allowed, (n - 1) as nat);
        if g.len() == 0 {
            rest
        } else {
            rest.push(g)
        }
    }
}

/// The contents of nested vectors.
pub open spec fn contents(v: Seq<Vec<usize>>) -> Seq<Seq<usize>> {
    Seq::new(v.len(), |i: int| v[i]@)
}

fn read_nodes(lists: &Vec<Vec<char>>, allowed: &Vec<usize>) -> (v: Vec<Vec<usize>>)
    ensures
        contents(v@) == domains_of(lists@, allowed@, lists@.len()),
{
    let mut v: Vec<Vec<usize>> = Vec::new();
    let mut i: usize = 0;
    assert(contents(v@) =~= domains_of(lists@, allowed@, 0));
    while i < lists.len()
        invariant
            i <= lists@.len(),
            contents(v@) == domains_of(lists@, allowed@, i as nat),
        decreases lists@.len() - i,
    {
        let g = keep_allowed(&parse_cpu_chars(&lists[i]), allowed);
        let ghost before = v@;
        if g.len() > 0 {
            let ghost gs = g@;
            v.push(g);
            assert(contents(v@) =~= contents(before).push(gs));
        }
        i = i + 1;
    }
    v
}

/// The cache domains of the allowed processors from place `i` on: each processor not yet
/// grouped brings in those it shares its cache with. `None` where a cache is unknown.
pub open spec fn caches_from(
    allowed: Seq<usize>,
    l3: Seq<Option<Vec<char>>>,
    i: int,
    grouped: Set<usize>,
) -> Option<Seq<Seq<usize>>>
    decreases allowed.len() - i,
{
    if i < 0 || i >= allowed.len() {
        Some(Seq::empty())
    } else if grouped.contains(allowed[i]) {
        caches_from(allowed, l3, i + 1, grouped)
    } else if allowed[i] < l3.len() && l3[allowed[i] as int] is Some {
        let g = allowed_of(list(l3[allowed[i] as int]->0@), allowed);
        match caches_from(allowed, l3, i + 1, grouped.union(g.to_set())) {
            Some(rest) => Some(
                if g.len() == 0 {
                    rest
                } else {
                    seq![g] + rest
                },
            ),
            None => None,
        }
    } else {
        None
    }
}

fn read_caches(allowed: &Vec<usize>, l3: &Vec<Option<Vec<char>>>) -> (r: Option<Vec<Vec<usize>>>)
    ensures
        match r {
            Some(v) => caches_from(allowed@, l3@, 0, Set::empty()) == Some(contents(v@)),
            None => caches_from(allowed@, l3@, 0, Set::empty()) is None,
        },
{
    let mut v: Vec<Vec<usize>> = Vec::new();
    let mut grouped: Vec<usize> = Vec::new();
    let mut i: usize = 0;
    let ghost whole = caches_from(allowed@, l3@, 0, Set::empty());
    assert(grouped@.to_set() =~= Set::<usize>::empty());
    proof {
        if let Some(rest) = caches_from(allowed@, l3@, 0, grouped@.to_set()) {
            assert(contents(v@) + rest =~= rest);
        }
    }
    while i < allowed.len()
        invariant
            i <= allowed@.len(),
            whole == (match caches_from(allowed@, l3@, i as int, grouped@.to_set()) {
                Some(rest) => Some(contents(v@) + rest),
                None => None,
            }),
            whole == caches_from(allowed@, l3@, 0, Set::empty()),
        decreases allowed@.len() - i,
    {
        let c: usize = allowed[i];
        if !holds(&grouped, c) {
            if c >= l3.len() {
                return None;
            }
            match &l3[c] {
                None => {
                    return None;
                },
                Some(names) => {
                    let g = keep_allowed(&parse_cpu_chars(names), allowed);
                    let ghost gs = g@;
                    let ghost before = grouped@;
                    let ghost v0 = v@;
                    append(&mut grouped, &g);
                    assert(grouped@.to_set() =~= before.to_set().union(gs.to_set())) by {
                        assert forall|x: usize| grouped@.to_set().contains(x) <==> before.to_set().union(
                            gs.to_set(),
                        ).contains(x) by {
                            lemma_append_contains(before, gs, x);
                        }
                    }
                    if g.len() > 0 {
                        v.push(g);
                        proof {
                            if let Some(rest) = caches_from(allowed@, l3@, i + 1, grouped@.to_set()) {
                                assert(contents(v@) + rest =~= contents(v0) + (seq![gs] + rest));
                            }
                        }
                    }
                },
            }
        }
        i = i + 1;
    }
    assert(contents(v@) + Seq::<Seq<usize>>::empty() =~= contents(v@));
    Some(v)
}

proof fn lemma_append_contains(a: Seq<usize>, b: Seq<usize>, x: usize)
    ensures
        (a + b).contains(x) <==> a.contains(x) || b.contains(x),
{
    if a.contains(x) {
        let i = choose|i: int| 0 <= i < a.len() && a[i] == x;
        assert((a + b)[i] == x);
    }
    if b.contains(x) {
        let i = choose|i: int| 0 <= i < b.len() && b[i] == x;
        assert((a + b)[a.len() + i] == x);
    }
}

fn append(v: &mut Vec<usize>, w: &Vec<usize>)
    ensures
        final(v)@ == old(v)@ + w@,
{
    let ghost before = v@;
    let mut i: usize = 0;
    while i < w.len()
        invariant
            i <= w@.len(),
            v@ == before + w@.subrange(0, i as int),
        decreases w@.len() - i,
    {
        v.push(w[i]);
        i = i + 1;
        assert(v@ =~= before + w@.subrange(0, i as int));
    }
    assert(w@.subrange(0, w@.len() as int) =~= w@);
}

fn copy(v: &Vec<usize>) -> (w: Vec<usize>)
    ensures
        w@ == v@,
{
    let mut w: Vec<usize> = Vec::new();
    append(&mut w, v);
    assert(w@ =~= v@);
    w
}

fn copy_all(v: &Vec<Vec<usize>>) -> (w: Vec<Vec<usize>>)
    ensures
        contents(w@) == contents(v@),
{
    let mut w: Vec<Vec<usize>> = Vec::new();
    let mut i: usize = 0;
    while i < v.len()
        invariant
            i <= v@.len(),
            w@.len() == i,
            forall|j: int| 0 <= j < i ==> (#[trigger] w@[j])@ == v@[j]@,
        decreases v@.len() - i,
    {
        w.push(copy(&v[i]));
        i = i + 1;
    }
    assert(contents(w@) =~= contents(v@));
    w
}

/// The processors the process may run on: its affinity, else those online, else as many as
/// run at once.
pub open spec fn allowed_cpus(s: Readings) -> Seq<usize> {
    match s.affinity {
        Some(v) => v@,
        None => if s.online is Some && list(trimmed(s.online->0@)).len() > 0 {
            list(trimmed(s.online->0@))
        } else {
            Seq::new(s.parallelism as nat, |i: int| i as usize)
        },
    }
}

fn read_allowed(s: &Readings) -> (v: Vec<usize>)
    ensures
        v@ == allowed_cpus(*s),
{
    match &s.affinity {
        Some(v) => {
            return copy(v);
        },
        None => {},
    }
    match &s.online {
        Some(t) => {
            let v = parse_cpu_chars(&trim(t));
            if v.len() > 0 {
                return v;
            }
        },
        None => {},
    }
    let mut v: Vec<usize> = Vec::new();
    while v.len() < s.parallelism
        invariant
            v@.len() <= s.parallelism,
            forall|i: int| 0 <= i < v@.len() ==> #[trigger] v@[i] == i,
        decreases s.parallelism - v@.len(),
    {
        let n: usize = v.len();
        v.push(n);
    }
    assert(v@ =~= Seq::new(s.parallelism as nat, |i: int| i as usize));
    v
}

/// The memory nodes: what the system reports, else one node of all allowed processors.
pub open spec fn nodes_of(s: Readings) -> Seq<Seq<usize>> {
    let allowed = allowed_cpus(s);
    if s.node_lists is Some && domains_of(s.node_lists->0@, allowed, s.node_lists->0@.len()).len() > 0 {
        domains_of(s.node_lists->0@, allowed, s.node_lists->0@.len())
    } else {
        seq![allowed]
    }
}

/// The cache domains: what the system reports, else the nodes.
pub open spec fn caches_of(s: Readings) -> Seq<Seq<usize>> {
    match caches_from(allowed_cpus(s), s.l3_lists@, 0, Set::empty()) {
        Some(v) => if v.len() > 0 {
            v
        } else {
            nodes_of(s)
        },
        None => nodes_of(s),
    }
}

/// One more thread leaves domain `a` no fuller than domain `b`, sizes and loads given.
pub open spec fn no_fuller(load_a: int, size_a: int, load_b: int, size_b: int) -> bool {
    (load_a + 1) * size_b <= (load_b + 1) * size_a
}

/// The room of a domain: its size, counting an empty one as one.
pub open spec fn room(domains: Seq<Vec<usize>>, d: int) -> int {
    if domains[d]@.len() == 0 {
        1
    } else {
        domains[d]@.len() as int
    }
}

/// How many of the first `n` threads went to domain `d`.
pub open spec fn load(assignment: Seq<usize>, d: int, n: nat) -> int
    decreases n,
{
    if n == 0 {
        0
    } else {
        load(assignment, d, (n - 1) as nat) + (if assignment[n - 1] == d {
            1int
        } else {
            0
        })
    }
}

/// Each of `threads` threads goes to the first of the domains that one more thread leaves
/// least full.
pub open spec fn spread(domains: Seq<Vec<usize>>, assignment: Seq<usize>, threads: int) -> bool {
    &&& assignment.len() == threads
    &&& forall|t: int| 0 <= t < threads ==> #[trigger] well_placed(domains, assignment, t)
}

/// Thread number `t` goes to the first of the domains that one more thread leaves least
/// full.
pub open spec fn well_placed(domains: Seq<Vec<usize>>, assignment: Seq<usize>, t: int) -> bool {
    let n = t as nat;
    let pick = assignment[t] as int;
    if domains.len() == 0 {
        pick == 0
    } else {
        &&& 0 <= pick < domains.len()
        &&& forall|d: int|
            0 <= d < domains.len() ==> no_fuller(
                load(assignment, pick, n),
                room(domains, pick),
                #[trigger] load(assignment, d, n),
                room(domains, d),
            )
        &&& forall|d: int|
            0 <= d < pick ==> !no_fuller(
                #[trigger] load(assignment, d, n),
                room(domains, d),
                load(assignment, pick, n),
                room(domains, pick),
            )
    }
}

/// The loads only look at the threads they count.
proof fn lemma_load_prefix(a: Seq<usize>, b: Seq<usize>, d: int, n: nat)
    requires
        n <= a.len(),
        n <= b.len(),
        forall|i: int| 0 <= i < n ==> a[i] == b[i],
    ensures
        load(a, d, n) == load(b, d, n),
        0 <= load(a, d, n) <= n,
    decreases n,
{
    if n > 0 {
        lemma_load_prefix(a, b, d, (n - 1) as nat);
    }
}

impl NumaTopology {
    /// The machine's map from what the system reports. Where it reports nothing there is a
    /// single domain.
    pub fn detect(s: &Readings) -> (t: NumaTopology)
        ensures
            contents(t.nodes@) == nodes_of(*s),
            contents(t.domains@) == caches_of(*s),
            t.nodes@.len() >= 1,
            t.domains@.len() >= 1,
    {
        let allowed = read_allowed(s);
        let mut nodes: Vec<Vec<usize>> = Vec::new();
        if let Some(lists) = &s.node_lists {
            nodes = read_nodes(lists, &allowed);
        }
        assert(contents(nodes@).len() == nodes@.len());
        if nodes.len() == 0 {
            nodes.push(copy(&allowed));
            assert(contents(nodes@) =~= seq![allowed@]);
        }
        let mut domains: Vec<Vec<usize>> = Vec::new();
        if let Some(v) = read_caches(&allowed, &s.l3_lists) {
            domains = v;
        }
        assert(contents(domains@).len() == domains@.len());
        if domains.len() == 0 {
            domains = copy_all(&nodes);
            assert(contents(domains@).len() == contents(nodes@).len());
        }
        assert(contents(nodes@).len() == nodes@.len() && contents(domains@).len() == domains@.len());
        NumaTopology { nodes, domains }
    }

    /// The number of memory domains.
    pub fn num_nodes(&self) -> (n: usize)
        ensures
            n == self.nodes@.len(),
    {
        self.nodes.len()
    }

    /// The number of cache domains.
    pub fn num_domains(&self) -> (n: usize)
        ensures
            n == self.domains@.len(),
    {
        self.domains.len()
    }

    /// Whether binding threads pays: there is more than one domain and more than one thread.
    pub fn should_bind(&self, threads: usize) -> (r: bool)
        ensures
            r == (self.domains@.len() > 1 && threads > 1),
    {
        self.domains.len() > 1 && threads > 1
    }

    /// Whether spreading memory over nodes pays.
    pub fn should_distribute(&self, threads: usize) -> (r: bool)
        ensures
            r == (self.nodes@.len() > 1 && threads > 1),
    {
        self.nodes.len() > 1 && threads > 1
    }

    fn size(&self, d: usize) -> (n: u64)
        requires
            d < self.domains@.len(),
        ensures
            n == room(self.domains@, d as int),
            1 <= n,
    {
        let n: usize = self.domains[d].len();
        if n == 0 {
            1
        } else {
            n as u64
        }
    }

    /// The first domain that one more thread leaves least full.
    fn roomiest(&self, occupied: &Vec<u64>, Ghost(a): Ghost<Seq<usize>>) -> (pick: usize)
        requires
            self.domains@.len() > 0,
            occupied@.len() == self.domains@.len(),
            forall|d: int| 0 <= d < self.domains@.len() ==> #[trigger] occupied@[d] == load(a, d, a.len()),
            a.len() < usize::MAX,
            forall|d: int| 0 <= d < self.domains@.len() ==> 0 <= #[trigger] load(a, d, a.len()) <= a.len(),
        ensures
            pick < self.domains@.len(),
            well_placed(self.domains@, a.push(pick), a.len() as int),
    {
        let mut pick: usize = 0;
        let mut d: usize = 1;
        let ghost n = a.len();
        while d < self.domains.len()
            invariant
                n == a.len(),
                n < usize::MAX,
                1 <= d <= self.domains@.len(),
                pick < d,
                occupied@.len() == self.domains@.len(),
                forall|d: int| 0 <= d < self.domains@.len() ==> #[trigger] occupied@[d] == load(a, d, n),
                forall|d: int| 0 <= d < self.domains@.len() ==> 0 <= #[trigger] load(a, d, n) <= n,
                forall|x: int|
                    0 <= x < d ==> no_fuller(
                        load(a, pick as int, n),
                        room(self.domains@, pick as int),
                        #[trigger] load(a, x, n),
                        room(self.domains@, x),
                    ),
                forall|x: int|
                    0 <= x < pick ==> !no_fuller(
                        #[trigger] load(a, x, n),
                        room(self.domains@, x),
                        load(a, pick as int, n),
                        room(self.domains@, pick as int),
                    ),
            decreases self.domains@.len() - d,
        {
            let la: u64 = occupied[d];
            let lb: u64 = occupied[pick];
            let sa: u64 = self.size(d);
            let sb: u64 = self.size(pick);
            assert(occupied@[d as int] == load(a, d as int, n));
            assert(occupied@[pick as int] == load(a, pick as int, n));
            assert(0 <= (la + 1) * sb <= 0x1_0000_0000_0000_0000 * 0xffff_ffff_ffff_ffff) by (nonlinear_arith)
                requires
                    0 <= la + 1 <= 0x1_0000_0000_0000_0000,
                    0 <= sb <= 0xffff_ffff_ffff_ffff,
            ;
            assert(0 <= (lb + 1) * sa <= 0x1_0000_0000_0000_0000 * 0xffff_ffff_ffff_ffff) by (nonlinear_arith)
                requires
                    0 <= lb + 1 <= 0x1_0000_0000_0000_0000,
                    0 <= sa <= 0xffff_ffff_ffff_ffff,
            ;
            let fresh: u128 = (la as u128 + 1) * sb as u128;
            let held: u128 = (lb as u128 + 1) * sa as u128;
            if fresh < held {
                proof {
                    assert forall|x: int| 0 <= x < d + 1 implies no_fuller(
                        load(a, d as int, n),
                        room(self.domains@, d as int),
                        #[trigger] load(a, x, n),
                        room(self.domains@, x),
                    ) by {
                        if x < d {
                            lemma_less_full(
                                la as int,
                                sa as int,
                                lb as int,
                                sb as int,
                                load(a, x, n),
                                room(self.domains@, x),
                            );
                        }
                    }
                    assert forall|x: int| 0 <= x < d implies !no_fuller(
                        #[trigger] load(a, x, n),
                        room(self.domains@, x),
                        load(a, d as int, n),
                        room(self.domains@, d as int),
                    ) by {
                        lemma_less_full(
                            la as int,
                            sa as int,
                            lb as int,
                            sb as int,
                            load(a, x, n),
                            room(self.domains@, x),
                        );
                    }
                }
                pick = d;
            }
            d = d + 1;
        }
        proof {
            let b = a.push(pick);
            assert forall|x: int| load(b, x, n) == load(a, x, n) by {
                lemma_load_prefix(b, a, x, n);
            }
        }
        pick
    }

    /// Assigns `threads` workers to cache domains, one domain each, so that larger domains
    /// take proportionally more of them.
    pub fn distribute(&self, threads: usize) -> (v: Vec<usize>)
        ensures
            spread(self.domains@, v@, threads as int),
    {
        let mut v: Vec<usize> = Vec::new();
        let n: usize = self.domains.len();
        let mut occupied: Vec<u64> = Vec::new();
        while occupied.len() < n
            invariant
                occupied@.len() <= n,
                forall|d: int| 0 <= d < occupied@.len() ==> #[trigger] occupied@[d] == 0,
            decreases n - occupied@.len(),
        {
            occupied.push(0);
        }
        while v.len() < threads
            invariant
                n == self.domains@.len(),
                v@.len() <= threads,
                occupied@.len() == n,
                forall|d: int| 0 <= d < n ==> #[trigger] occupied@[d] == load(v@, d, v@.len()),
                forall|t: int| 0 <= t < v@.len() ==> #[trigger] well_placed(self.domains@, v@, t),
            decreases threads - v@.len(),
        {
            let ghost before = v@;
            proof {
                assert forall|d: int| 0 <= d < n implies 0 <= #[trigger] load(before, d, before.len()) <= before.len() by {
                    lemma_load_prefix(before, before, d, before.len());
                }
            }
            let pick: usize = if n == 0 {
                0
            } else {
                self.roomiest(&occupied, Ghost(before))
            };
            v.push(pick);
            if n > 0 {
                let ghost occ0 = occupied@;
                proof {
                    assert(occ0[pick as int] == load(before, pick as int, before.len()));
                }
                let more: u64 = occupied[pick] + 1;
                occupied[pick] = more;
            }
            proof {
                assert forall|d: int| 0 <= d < n implies #[trigger] occupied@[d] == load(v@, d, v@.len()) by {
                    lemma_load_prefix(v@, before, d, before.len());
                }
                assert forall|t: int| 0 <= t < v@.len() implies #[trigger] well_placed(self.domains@, v@, t) by {
                    if t < before.len() {
                        assert(well_placed(self.domains@, before, t));
                        assert forall|d: int| #[trigger] load(v@, d, t as nat) == load(before, d, t as nat) by {
                            lemma_load_prefix(v@, before, d, t as nat);
                        }
                    }
                }
            }
        }
        v
    }

    /// Whether the machine has more than one memory domain.
    pub fn spans_nodes(&self) -> (r: bool)
        ensures
            r == (self.nodes@.len() > 1),
    {
        self.nodes.len() > 1
    }

    /// The processors that search thread `thread_id` of `threads` belongs on, where binding
    /// pays.
    pub fn bind_search_thread(&self, thread_id: usize, threads: usize) -> (r: Option<Vec<usize>>)
        requires
            thread_id < threads,
        ensures
            self.domains@.len() <= 1 || threads <= 1 ==> r is None,
            self.domains@.len() > 1 && threads > 1 ==> exists|v: Seq<usize>| #[trigger]
                spread(self.domains@, v, threads as int) && {
                    let d = v[thread_id as int] as int;
                    match r {
                        Some(c) => d < self.domains@.len() && c@ == self.domains@[d]@ && c@.len() > 0,
                        None => d >= self.domains@.len() || self.domains@[d]@.len() == 0,
                    }
                },
    {
        if !self.should_bind(threads) {
            return None;
        }
        let v = self.distribute(threads);
        assert(spread(self.domains@, v@, threads as int));
        self.bind_to_domain(v[thread_id])
    }

    /// The processors of a cache domain, where there is something to bind to.
    pub fn bind_to_domain(&self, domain: usize) -> (r: Option<Vec<usize>>)
        ensures
            match r {
                Some(v) => domain < self.domains@.len() && v@ == self.domains@[domain as int]@ && v@.len() > 0,
                None => domain >= self.domains@.len() || self.domains@[domain as int]@.len() == 0,
            },
    {
        if domain < self.domains.len() && self.domains[domain].len() > 0 {
            Some(copy(&self.domains[domain]))
        } else {
            None
        }
    }

    /// The processors of a memory domain, where there is something to bind to.
    pub fn bind_to_node(&self, node: usize) -> (r: Option<Vec<usize>>)
        ensures
            match r {
                Some(v) => node < self.nodes@.len() && v@ == self.nodes@[node as int]@ && v@.len() > 0,
                None => node >= self.nodes@.len() || self.nodes@[node as int]@.len() == 0,
            },
    {
        if node < self.nodes.len() && self.nodes[node].len() > 0 {
            Some(copy(&self.nodes[node]))
        } else {
            None
        }
    }
}

/// Threads are spread in proportion: no domain is fuller than another by more than the thread
/// that it took last.
pub proof fn law_threads_are_spread_in_proportion(domains: Seq<Vec<usize>>, a: Seq<usize>, threads: int, x: int, y: int)
    requires
        spread(domains, a, threads),
        0 <= x < domains.len(),
        0 <= y < domains.len(),
    ensures
        load(a, x, a.len()) * room(domains, y) <= (load(a, y, a.len()) + 1) * room(domains, x),
{
    lemma_proportion(domains, a, x, y, a.len());
}

proof fn lemma_proportion(domains: Seq<Vec<usize>>, a: Seq<usize>, x: int, y: int, n: nat)
    requires
        n <= a.len(),
        forall|t: int| 0 <= t < a.len() ==> #[trigger] well_placed(domains, a, t),
        0 <= x < domains.len(),
        0 <= y < domains.len(),
    ensures
        load(a, x, n) * room(domains, y) <= (load(a, y, n) + 1) * room(domains, x),
        load(a, x, n) >= 0,
        load(a, y, n) >= 0,
    decreases n,
{
    if n > 0 {
        let m = (n - 1) as nat;
        lemma_proportion(domains, a, x, y, m);
        assert(well_placed(domains, a, n - 1));
        let pick = a[n - 1] as int;
        let (lx, ly) = (load(a, x, m), load(a, y, m));
        let (rx, ry) = (room(domains, x), room(domains, y));
        if x == pick {
            assert(no_fuller(lx, rx, ly, ry));
            if y == pick {
                assert((lx + 1) * ry <= (ly + 1 + 1) * rx) by (nonlinear_arith)
                    requires
                        lx == ly,
                        rx == ry,
                        rx > 0,
                ;
            }
        } else if y == pick {
            assert(lx * ry <= (ly + 1 + 1) * rx) by (nonlinear_arith)
                requires
                    lx * ry <= (ly + 1) * rx,
                    rx > 0,
            ;
        }
    } else {
        assert(0 * room(domains, y) <= (0 + 1) * room(domains, x)) by (nonlinear_arith)
            requires
                room(domains, x) > 0,
        ;
    }
}

/// Fewer threads are spread as the first of many are.
pub proof fn law_fewer_threads_go_where_the_first_of_many_go(
    domains: Seq<Vec<usize>>,
    a: Seq<usize>,
    few: int,
    b: Seq<usize>,
    many: int,
)
    requires
        spread(domains, a, few),
        spread(domains, b, many),
        few <= many,
    ensures
        a == b.take(few),
{
    lemma_same_start(domains, a, b, few as nat);
    assert(a =~= b.take(few));
}

proof fn lemma_same_start(domains: Seq<Vec<usize>>, a: Seq<usize>, b: Seq<usize>, n: nat)
    requires
        n <= a.len(),
        n <= b.len(),
        forall|t: int| 0 <= t < a.len() ==> #[trigger] well_placed(domains, a, t),
        forall|t: int| 0 <= t < b.len() ==> #[trigger] well_placed(domains, b, t),
    ensures
        forall|i: int| 0 <= i < n ==> a[i] == b[i],
    decreases n,
{
    if n > 0 {
        let m = (n - 1) as nat;
        lemma_same_start(domains, a, b, m);
        assert(well_placed(domains, a, m as int));
        assert(well_placed(domains, b, m as int));
        assert forall|d: int| #[trigger] load(a, d, m) == load(b, d, m) by {
            lemma_load_prefix(a, b, d, m);
        }
        let (x, y) = (a[m as int] as int, b[m as int] as int);
        if domains.len() > 0 && x != y {
            assert(load(a, x, m) == load(b, x, m) && load(a, y, m) == load(b, y, m));
        }
    }
}

/// Being less full is transitive.
proof fn lemma_less_full(la: int, sa: int, lb: int, sb: int, lx: int, sx: int)
    requires
        sa > 0,
        sb > 0,
        sx > 0,
        la >= 0,
        lb >= 0,
        lx >= 0,
        (la + 1) * sb < (lb + 1) * sa,
        no_fuller(lb, sb, lx, sx),
    ensures
        no_fuller(la, sa, lx, sx),
        !no_fuller(lx, sx, la, sa),
{
    assert((la + 1) * sx < (lx + 1) * sa) by (nonlinear_arith)
        requires
            sa > 0,
            sb > 0,
            sx > 0,
            la >= 0,
            lb >= 0,
            lx >= 0,
            (la + 1) * sb < (lb + 1) * sa,
            (lb + 1) * sx <= (lx + 1) * sb,
    {
        assert((la + 1) * sb * sx < (lb + 1) * sa * sx);
        assert((lb + 1) * sx * sa <= (lx + 1) * sb * sa);
        assert((la + 1) * sx * sb < (lx + 1) * sa * sb);
    }
}

/// Domains of one size fill evenly: no two ever differ by more than a thread.
pub proof fn law_equal_domains_fill_evenly(
    domains: Seq<Vec<usize>>,
    assignment: Seq<usize>,
    threads: int,
    size: int,
    n: nat,
    a: int,
    b: int,
)
    requires
        spread(domains, assignment, threads),
        n <= threads,
        forall|d: int| 0 <= d < domains.len() ==> #[trigger] room(domains, d) == size,
        0 <= a < domains.len(),
        0 <= b < domains.len(),
    ensures
        load(assignment, a, n) <= load(assignment, b, n) + 1,
    decreases n,
{
    if n > 0 {
        let t = n - 1;
        law_equal_domains_fill_evenly(domains, assignment, threads, size, t as nat, a, b);
        assert(well_placed(domains, assignment, t));
        assert(room(domains, a) == size && room(domains, b) == size);
        let x = load(assignment, a, t as nat);
        let y = load(assignment, b, t as nat);
        if assignment[t] == a && a != b {
            assert(no_fuller(x, size, y, size));
            assert(x <= y) by (nonlinear_arith)
                requires
                    (x + 1) * size <= (y + 1) * size,
                    size >= 1,
            ;
        }
    }
}

/// Processor `cpu` is marked in an affinity mask of 64-bit words.
pub open spec fn marked(mask: Seq<u64>, cpu: int) -> bool {
    0 <= cpu < 64 * mask.len() && Bitboard(mask[cpu / 64]).has(cpu % 64)
}

/// The processors that a mask marks, in order.
pub fn decode_mask(mask: &[u64]) -> (v: Vec<usize>)
    requires
        64 * mask@.len() <= usize::MAX,
    ensures
        forall|c: usize| #[trigger] v@.contains(c) <==> marked(mask@, c as int),
        forall|i: int, j: int| 0 <= i < j < v@.len() ==> v@[i] < v@[j],
{
    let mut v: Vec<usize> = Vec::new();
    let n: usize = 64 * mask.len();
    let mut cpu: usize = 0;
    while cpu < n
        invariant
            n == 64 * mask@.len(),
            cpu <= n,
            forall|c: usize| #[trigger] v@.contains(c) <==> c < cpu && marked(mask@, c as int),
            forall|i: int| 0 <= i < v@.len() ==> #[trigger] v@[i] < cpu,
            forall|i: int, j: int| 0 <= i < j < v@.len() ==> v@[i] < v@[j],
        decreases n - cpu,
    {
        let ghost v0 = v@;
        let word = Bitboard(mask[cpu / 64]);
        if word.check_bit(Square((cpu % 64) as u8)) {
            v.push(cpu);
            proof {
                assert forall|c: usize| #[trigger] v@.contains(c) <==> c < cpu + 1 && marked(mask@, c as int) by {
                    if v0.contains(c) {
                        let i = choose|i: int| 0 <= i < v0.len() && v0[i] == c;
                        assert(v@[i] == c);
                    }
                    if c == cpu {
                        assert(v@[v0.len() as int] == c);
                    }
                    if v@.contains(c) && c != cpu {
                        let i = choose|i: int| 0 <= i < v@.len() && v@[i] == c;
                        assert(v0[i] == c);
                    }
                }
            }
        }
        cpu = cpu + 1;
    }
    v
}

/// The mask that marks just these processors, as short as it can be. Nothing to mark has no
/// mask.
pub fn encode_mask(cpus: &[usize]) -> (r: Option<Vec<u64>>)
    ensures
        r is None <==> cpus@.len() == 0,
        r matches Some(mask) ==> {
            &&& forall|c: usize| #[trigger] marked(mask@, c as int) <==> cpus@.contains(c)
            &&& exists|i: int| 0 <= i < cpus@.len() && #[trigger] cpus@[i] / 64 + 1 == mask@.len()
        },
{
    if cpus.len() == 0 {
        return None;
    }
    let mut top: usize = 0;
    let mut i: usize = 1;
    while i < cpus.len()
        invariant
            1 <= i <= cpus@.len(),
            top < i,
            forall|j: int| 0 <= j < i ==> #[trigger] cpus@[j] <= cpus@[top as int],
        decreases cpus@.len() - i,
    {
        if cpus[i] > cpus[top] {
            top = i;
        }
        i = i + 1;
    }
    let words: usize = cpus[top] / 64 + 1;
    let mut mask: Vec<u64> = Vec::new();
    while mask.len() < words
        invariant
            mask@.len() <= words,
            forall|j: int| 0 <= j < mask@.len() ==> #[trigger] mask@[j] == 0,
        decreases words - mask@.len(),
    {
        mask.push(0);
    }
    assert forall|c: int| !#[trigger] marked(mask@, c) by {
        bitboard::lemma_zero(c % 64);
    }
    let mut k: usize = 0;
    while k < cpus.len()
        invariant
            k <= cpus@.len(),
            top < cpus@.len(),
            words == cpus@[top as int] / 64 + 1,
            mask@.len() == words,
            forall|j: int| 0 <= j < cpus@.len() ==> #[trigger] cpus@[j] <= cpus@[top as int],
            forall|c: usize| #[trigger]
                marked(mask@, c as int) <==> exists|j: int| 0 <= j < k && #[trigger] cpus@[j] == c,
        decreases cpus@.len() - k,
    {
        let cpu: usize = cpus[k];
        let w: usize = cpu / 64;
        let ghost before = mask@;
        let sq = Square((cpu % 64) as u8);
        let word = Bitboard(mask[w]).or(Bitboard::single(sq));
        mask.set(w, word.0);
        proof {
            assert forall|c: usize| #[trigger] marked(mask@, c as int) <==> marked(before, c as int) || c == cpu by {
                if c / 64 < words && c / 64 != w {
                    assert(mask@[c as int / 64] == before[c as int / 64]);
                }
            }
            assert forall|c: usize| #[trigger]
                marked(mask@, c as int) <==> exists|j: int| 0 <= j < k + 1 && #[trigger] cpus@[j] == c by {
                if marked(before, c as int) {
                    let j = choose|j: int| 0 <= j < k && #[trigger] cpus@[j] == c;
                    assert(cpus@[j] == c);
                }
                if c == cpu {
                    assert(cpus@[k as int] == c);
                }
            }
        }
        k = k + 1;
    }
    proof {
        assert forall|c: usize| #[trigger] marked(mask@, c as int) <==> cpus@.contains(c) by {
            if cpus@.contains(c) {
                let j = choose|j: int| 0 <= j < cpus@.len() && cpus@[j] == c;
                assert(cpus@[j] == c);
            }
        }
        assert(cpus@[top as int] / 64 + 1 == mask@.len());
    }
    Some(mask)
}

/// Trimming drops the blanks at both ends, all of them, and nothing else.
pub proof fn law_only_blanks_around_are_dropped(s: Seq<char>)
    ensures
        exists|i: int, j: int|
            0 <= i <= j <= s.len() && trimmed(s) == #[trigger] s.subrange(i, j) && (forall|k: int|
                0 <= k < i || j <= k < s.len() ==> text::blank(#[trigger] s[k])),
        trimmed(s).len() > 0 ==> !text::blank(trimmed(s)[0]) && !text::blank(trimmed(s).last()),
{
    let i = lemma_front(s);
    let t = skip_blanks(s);
    let m = lemma_back(t);
    let j = i + m;
    assert(trimmed(s) =~= s.subrange(i, j));
    assert forall|k: int| 0 <= k < i || j <= k < s.len() implies text::blank(#[trigger] s[k]) by {
        if k >= j {
            assert(t[k - i] == s[k]);
        }
    }
}

proof fn lemma_front(s: Seq<char>) -> (i: int)
    ensures
        0 <= i <= s.len(),
        skip_blanks(s) == s.subrange(i, s.len() as int),
        forall|k: int| 0 <= k < i ==> text::blank(#[trigger] s[k]),
        i < s.len() ==> !text::blank(s[i]),
    decreases s.len(),
{
    if s.len() > 0 && text::blank(s[0]) {
        let r = s.subrange(1, s.len() as int);
        let j = lemma_front(r);
        assert(skip_blanks(s) =~= s.subrange(j + 1, s.len() as int));
        assert forall|k: int| 0 <= k < j + 1 implies text::blank(#[trigger] s[k]) by {
            if k > 0 {
                assert(r[k - 1] == s[k]);
            }
        }
        if j + 1 < s.len() {
            assert(r[j] == s[j + 1]);
        }
        j + 1
    } else {
        assert(s.subrange(0, s.len() as int) =~= s);
        0
    }
}

proof fn lemma_back(s: Seq<char>) -> (j: int)
    ensures
        0 <= j <= s.len(),
        drop_blanks(s) == s.subrange(0, j),
        forall|k: int| j <= k < s.len() ==> text::blank(#[trigger] s[k]),
        j > 0 ==> !text::blank(s[j - 1]),
    decreases s.len(),
{
    if s.len() > 0 && text::blank(s.last()) {
        let j = lemma_back(s.drop_last());
        assert(drop_blanks(s) =~= s.subrange(0, j));
        assert forall|k: int| j <= k < s.len() implies text::blank(#[trigger] s[k]) by {
            if k < s.len() - 1 {
                assert(s.drop_last()[k] == s[k]);
            }
        }
        j
    } else {
        assert(s.subrange(0, s.len() as int) =~= s);
        s.len() as int
    }
}

/// A comma parts a list into two, whose processors follow one another.
pub proof fn law_commas_part_lists(a: Seq<char>, b: Seq<char>)
    ensures
        list(a.push(',') + b) == list(a) + list(b),
{
    lemma_parted(a, b, 0);
}

proof fn lemma_parted(a: Seq<char>, b: Seq<char>, i: int)
    requires
        0 <= i <= a.len(),
    ensures
        list_from(a.push(',') + b, i) == list_from(a, i) + list(b),
    decreases a.len() - i,
{
    let x = a.push(',') + b;
    let e = next_at(a, ',', i);
    lemma_next_at(a, ',', i);
    lemma_same_place(a, x, i);
    assert(x.subrange(i, e) =~= a.subrange(i, e));
    if e < a.len() {
        lemma_parted(a, b, e + 1);
        assert(list_from(x, i) =~= list_from(a, i) + list(b));
    } else {
        lemma_shifted(x, b, a.len() as int + 1, 0);
        assert(list_from(x, i) =~= list_from(a, i) + list(b));
    }
}

/// With a comma behind the text, the next comma is where it was, or that one.
proof fn lemma_same_place(a: Seq<char>, x: Seq<char>, i: int)
    requires
        0 <= i <= a.len() < x.len(),
        x[a.len() as int] == ',',
        forall|k: int| 0 <= k < a.len() ==> #[trigger] x[k] == a[k],
    ensures
        next_at(x, ',', i) == next_at(a, ',', i),
    decreases a.len() - i,
{
    if i < a.len() {
        assert(x[i] == a[i]);
        if a[i] != ',' {
            lemma_same_place(a, x, i + 1);
        }
    }
}

proof fn lemma_shifted(x: Seq<char>, b: Seq<char>, n: int, j: int)
    requires
        0 <= n,
        0 <= j <= b.len(),
        x.len() == n + b.len(),
        forall|k: int| 0 <= k < b.len() ==> x[n + k] == #[trigger] b[k],
    ensures
        list_from(x, n + j) == list_from(b, j),
    decreases b.len() - j,
{
    lemma_next_at(b, ',', j);
    lemma_place_shifted(x, b, n, j);
    let e = next_at(b, ',', j);
    assert(x.subrange(n + j, n + e) =~= b.subrange(j, e));
    if e < b.len() {
        lemma_shifted(x, b, n, e + 1);
    }
}

proof fn lemma_place_shifted(x: Seq<char>, b: Seq<char>, n: int, j: int)
    requires
        0 <= n,
        0 <= j <= b.len(),
        x.len() == n + b.len(),
        forall|k: int| 0 <= k < b.len() ==> x[n + k] == #[trigger] b[k],
    ensures
        next_at(x, ',', n + j) == n + next_at(b, ',', j),
    decreases b.len() - j,
{
    if j < b.len() {
        assert(x[n + j] == b[j]);
        if b[j] != ',' {
            lemma_place_shifted(x, b, n, j + 1);
        }
    }
}

/// A range names every processor from its first to its last, and a number its own.
pub proof fn law_ranges_name_all_between(a: Seq<char>, b: Seq<char>, lo: int, hi: int, c: usize)
    requires
        forall|k: int| 0 <= k < a.len() ==> #[trigger] a[k] != '-',
        text::unsigned(a) == Some(lo) && 0 <= lo <= usize::MAX,
        text::unsigned(b) == Some(hi) && 0 <= hi <= usize::MAX,
    ensures
        part_cpus(a) == seq![lo as usize],
        part_cpus(a.push('-') + b).contains(c) <==> lo <= c <= hi,
        lo <= hi ==> part_cpus(a.push('-') + b).len() == hi - lo + 1,
{
    let x = a.push('-') + b;
    lemma_dash(a, a, 0);
    lemma_dash(a, x, 0);
    assert(x.subrange(0, a.len() as int) =~= a);
    assert(x.subrange(a.len() as int + 1, x.len() as int) =~= b);
    let p = part_cpus(x);
    assert(p == span(lo, hi));
    if lo <= c <= hi {
        assert(p[c - lo] == c);
    }
}

proof fn lemma_dash(a: Seq<char>, x: Seq<char>, i: int)
    requires
        0 <= i <= a.len() <= x.len(),
        forall|k: int| 0 <= k < a.len() ==> #[trigger] x[k] == a[k],
        forall|k: int| 0 <= k < a.len() ==> #[trigger] a[k] != '-',
        a.len() < x.len() ==> x[a.len() as int] == '-',
    ensures
        next_at(x, '-', i) == a.len(),
    decreases a.len() - i,
{
    if i < a.len() {
        assert(x[i] == a[i]);
        lemma_dash(a, x, i + 1);
    }
}

/// No domain is empty, and none holds a processor that is not allowed.
pub proof fn law_domains_hold_allowed_processors(lists: Seq<Vec<char>>, allowed: Seq<usize>, n: nat, d: int, c: usize)
    requires
        0 <= d < domains_of(lists, allowed, n).len(),
    ensures
        domains_of(lists, allowed, n)[d].len() > 0,
        domains_of(lists, allowed, n)[d].contains(c) ==> allowed.contains(c),
    decreases n,
{
    if n > 0 {
        let rest = domains_of(lists, allowed, (n - 1) as nat);
        let all = list(lists[n - 1]@);
        let g = allowed_of(all, allowed);
        if d < rest.len() {
            law_domains_hold_allowed_processors(lists, allowed, (n - 1) as nat, d, c);
        } else if g.contains(c) {
            let i = choose|i: int| 0 <= i < g.len() && g[i] == c;
            all.lemma_filter_pred(|x: usize| allowed.contains(x), i);
        }
    }
}

/// An affinity is obeyed before anything else, and there are never more processors than the
/// system knows of where nothing is said.
pub proof fn law_an_affinity_is_obeyed(s: Readings)
    ensures
        s.affinity matches Some(v) ==> allowed_cpus(s) == v@,
        s.affinity is None && s.online is None ==> allowed_cpus(s).len() == s.parallelism,
        s.node_lists is None ==> nodes_of(s) == seq![allowed_cpus(s)],
        nodes_of(s).len() >= 1,
        caches_of(s).len() >= 1,
{
}

} // verus!
