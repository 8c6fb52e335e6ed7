//! Folding resolved stacks into flame-graph lines.
//!
//! Every resolved stack is reversed so the outermost caller comes first,
//! trailing unknown frames are trimmed (never down to zero frames), the
//! frame names are joined with `;`, and equal folded keys have their sample
//! counts summed — optionally scaled to microseconds by the sampling period.
use vstd::prelude::*;

use crate::parser::Stacktrace;
use crate::symbols::PcSymbolMap;
use crate::symbols::SymbolResolver;
use crate::text::dec_value;
use crate::text::push_char;
use vstd::string::StringExecFns;

verus! {

/// The placeholder name of a frame whose address no object resolved.
pub open spec fn unknown_name() -> Seq<char> {
    seq!['?', '?', '?']
}

/// The unknown-frame placeholder, `"???"`.
pub fn unknown_symbol() -> (r: String)
    ensures
        r@ == unknown_name(),
{
    let r = String::from_str("???");
    proof {
        reveal_strlit("???");
        assert(r@ =~= unknown_name());
    }
    r
}

/// Drop trailing unknown frames, but never the only frame left.
pub open spec fn trim_unknown(s: Seq<Seq<char>>) -> Seq<Seq<char>>
    decreases s.len(),
{
    if s.len() > 1 && s.last() == unknown_name() {
        trim_unknown(s.drop_last())
    } else {
        s
    }
}

/// The frame names joined with `;`.
pub open spec fn spec_join_semi(l: Seq<Seq<char>>) -> Seq<char>
    decreases l.len(),
{
    if l.len() == 0 {
        Seq::empty()
    } else if l.len() == 1 {
        l[0]
    } else {
        spec_join_semi(l.drop_last()) + seq![';'] + l.last()
    }
}

/// The folded key of a leaf-first resolved stack: reverse to root-first,
/// trim trailing unknown frames, join with `;`.
pub open spec fn folded_key(symbols: Seq<Seq<char>>) -> Seq<char> {
    spec_join_semi(trim_unknown(symbols.reverse()))
}

/// The resolved frame names of a stack record, if resolution has run.
pub open spec fn st_symbols(st: Stacktrace) -> Option<Seq<Seq<char>>> {
    match st.symbols {
        Some(v) => Some(v.deep_view()),
        None => None,
    }
}

/// Build the folded key of one resolved stack.
pub fn folded_key_exec(symbols: &Vec<String>) -> (r: String)
    ensures
        r@ == folded_key(symbols.deep_view()),
{
    let ghost dv = symbols.deep_view();
    let n = symbols.len();
    let mut rev: Vec<String> = Vec::new();
    let mut i: usize = 0;
    while i < n
        invariant
            n == symbols@.len(),
            dv == symbols.deep_view(),
            dv.len() == n,
            i <= n,
            rev.deep_view() == dv.reverse().take(i as int),
        decreases n - i,
    {
        let s = symbols[n - 1 - i].clone();
        proof {
            assert(s@ == dv[n - 1 - i]);
            assert(dv.reverse()[i as int] == dv[n - 1 - i]);
        }
        let ghost r0 = rev.deep_view();
        rev.push(s);
        proof {
            assert(rev.deep_view() =~~= r0.push(dv.reverse()[i as int]));
            assert(dv.reverse().take(i + 1) =~= dv.reverse().take(i as int).push(
                dv.reverse()[i as int],
            ));
        }
        i = i + 1;
    }
    proof {
        assert(dv.reverse().take(n as int) =~= dv.reverse());
    }
    let unk = unknown_symbol();
    while rev.len() > 1 && rev[rev.len() - 1] == unk
        invariant
            unk@ == unknown_name(),
            trim_unknown(dv.reverse()) == trim_unknown(rev.deep_view()),
        decreases rev@.len(),
    {
        let ghost r0 = rev.deep_view();
        proof {
            assert(r0.last() == rev@[rev@.len() - 1]@);
            assert(r0.last() == unknown_name());
        }
        rev.pop();
        proof {
            assert(rev.deep_view() =~~= r0.drop_last());
        }
    }
    proof {
        if rev@.len() > 1 {
            assert(rev.deep_view().last() == rev@[rev@.len() - 1]@);
            assert(rev.deep_view().last() != unknown_name());
        }
        assert(trim_unknown(rev.deep_view()) == rev.deep_view());
    }
    let ghost tv = rev.deep_view();
    let mut out = String::new();
    let mut k: usize = 0;
    while k < rev.len()
        invariant
            tv == rev.deep_view(),
            tv.len() == rev@.len(),
            k <= rev@.len(),
            out@ == spec_join_semi(tv.take(k as int)),
        decreases rev@.len() - k,
    {
        if k > 0 {
            push_char(&mut out, ';');
        }
        out.append(rev[k].as_str());
        proof {
            assert(tv.take(k + 1).last() == tv[k as int]);
            assert(tv[k as int] == rev@[k as int]@);
            assert(tv.take(k + 1).drop_last() =~= tv.take(k as int));
            if k > 0 {
                assert(spec_join_semi(tv.take(k + 1)) == spec_join_semi(tv.take(k as int)) + seq![
                    ';',
                ] + tv[k as int]);
            }
        }
        k = k + 1;
    }
    proof {
        assert(tv.take(tv.len() as int) =~= tv);
    }
    out
}

/// Does any stack of the first `i` records, or the first `j` frames of
/// record `i`, hold the counter `pc`?
pub open spec fn pc_in_prefix(sts: Seq<Stacktrace>, i: int, j: int, pc: u64) -> bool {
    exists|a: int, b: int|
        0 <= a < sts.len() && 0 <= b < sts[a].pcs@.len() && (a < i || (a == i && b < j))
            && sts[a].pcs@[b] == pc
}

/// Does any stack of the trace hold the counter `pc`?
pub open spec fn pc_in_stacks(sts: Seq<Stacktrace>, pc: u64) -> bool {
    pc_in_prefix(sts, sts.len() as int, 0, pc)
}

fn contains_u64(v: &Vec<u64>, x: u64) -> (r: bool)
    ensures
        r == v@.contains(x),
{
    let mut i: usize = 0;
    while i < v.len()
        invariant
            i <= v@.len(),
            forall|k: int| 0 <= k < i ==> v@[k] != x,
        decreases v@.len() - i,
    {
        if v[i] == x {
            assert(v@.contains(x)) by {
                assert(v@[i as int] == x);
            }
            return true;
        }
        i = i + 1;
    }
    false
}

/// Collect the distinct program counters of all stacks, each exactly once.
pub fn collect_all_pcs(stacktraces: &Vec<Stacktrace>) -> (r: Vec<u64>)
    ensures
        forall|pc: u64| #[trigger] r@.contains(pc) <==> pc_in_stacks(stacktraces@, pc),
        forall|i: int, j: int| 0 <= i < j < r@.len() ==> r@[i] != r@[j],
{
    let sts = stacktraces;
    let mut r: Vec<u64> = Vec::new();
    let mut i: usize = 0;
    while i < sts.len()
        invariant
            i <= sts@.len(),
            forall|pc: u64| #[trigger] r@.contains(pc) <==> pc_in_prefix(sts@, i as int, 0, pc),
            forall|a: int, b: int| 0 <= a < b < r@.len() ==> r@[a] != r@[b],
        decreases sts@.len() - i,
    {
        let npcs = sts[i].pcs.len();
        let mut j: usize = 0;
        while j < npcs
            invariant
                i < sts@.len(),
                npcs == sts@[i as int].pcs@.len(),
                j <= npcs,
                forall|pc: u64|
                    #[trigger] r@.contains(pc) <==> pc_in_prefix(sts@, i as int, j as int, pc),
                forall|a: int, b: int| 0 <= a < b < r@.len() ==> r@[a] != r@[b],
            decreases npcs - j,
        {
            let pc = sts[i].pcs[j];
            if !contains_u64(&r, pc) {
                let ghost r0 = r@;
                r.push(pc);
                proof {
                    assert forall|q: u64| #[trigger] r@.contains(q) implies pc_in_prefix(
                        sts@,
                        i as int,
                        j + 1,
                        q,
                    ) by {
                        let w = choose|w: int| 0 <= w < r@.len() && #[trigger] r@[w] == q;
                        if w < r0.len() {
                            assert(r0[w] == q);
                            assert(r0.contains(q));
                        } else {
                            assert(q == pc);
                            assert(sts@[i as int].pcs@[j as int] == pc);
                        }
                    }
                    assert forall|q: u64| pc_in_prefix(sts@, i as int, j + 1, q) implies #[trigger] r@.contains(
                        q,
                    ) by {
                        if pc_in_prefix(sts@, i as int, j as int, q) {
                            assert(r0.contains(q));
                            let w = choose|w: int| 0 <= w < r0.len() && #[trigger] r0[w] == q;
                            assert(r@[w] == q);
                        } else {
                            let (a, b) = choose|a: int, b: int|
                                0 <= a < sts@.len() && 0 <= b < sts@[a].pcs@.len() && (a < i || (a
                                    == i && b < j + 1)) && #[trigger] sts@[a].pcs@[b] == q;
                            assert(a == i && b == j);
                            assert(q == pc);
                            assert(r@[r@.len() - 1] == pc);
                        }
                    }
                }
            } else {
                proof {
                    assert forall|q: u64| pc_in_prefix(sts@, i as int, j + 1, q) implies #[trigger] r@.contains(
                        q,
                    ) by {
                        if !pc_in_prefix(sts@, i as int, j as int, q) {
                            let (a, b) = choose|a: int, b: int|
                                0 <= a < sts@.len() && 0 <= b < sts@[a].pcs@.len() && (a < i || (a
                                    == i && b < j + 1)) && #[trigger] sts@[a].pcs@[b] == q;
                            assert(a == i && b == j);
                            assert(q == pc);
                        }
                    }
                    assert forall|q: u64| #[trigger] r@.contains(q) implies pc_in_prefix(
                        sts@,
                        i as int,
                        j + 1,
                        q,
                    ) by {
                    }
                }
            }
            j = j + 1;
        }
        proof {
            assert forall|q: u64|
                pc_in_prefix(sts@, i + 1, 0, q) == pc_in_prefix(sts@, i as int, npcs as int, q) by {
                if pc_in_prefix(sts@, i + 1, 0, q) {
                    let (a, b) = choose|a: int, b: int|
                        0 <= a < sts@.len() && 0 <= b < sts@[a].pcs@.len() && (a < i + 1 || (a == i
                            + 1 && b < 0)) && #[trigger] sts@[a].pcs@[b] == q;
                    assert(pc_in_prefix(sts@, i as int, npcs as int, q));
                }
                if pc_in_prefix(sts@, i as int, npcs as int, q) {
                    let (a, b) = choose|a: int, b: int|
                        0 <= a < sts@.len() && 0 <= b < sts@[a].pcs@.len() && (a < i || (a == i && b
                            < npcs)) && #[trigger] sts@[a].pcs@[b] == q;
                    assert(pc_in_prefix(sts@, i + 1, 0, q));
                }
            }
        }
        i = i + 1;
    }
    proof {
        assert forall|q: u64|
            pc_in_prefix(sts@, sts@.len() as int, 0, q) == pc_in_prefix(
                sts@,
                sts@.len() as int,
                0,
                q,
            ) by {}
    }
    r
}

/// The display names of a stack's counters under a resolution map: the bound
/// name, or the unknown placeholder.
pub open spec fn resolved_names(pcs: Seq<u64>, m: Map<u64, Seq<char>>) -> Seq<Seq<char>> {
    Seq::new(
        pcs.len(),
        |j: int|
            if m.contains_key(pcs[j]) {
                m[pcs[j]]
            } else {
                unknown_name()
            },
    )
}

/// Fill each stack's resolved symbols from the batch-resolution map; every
/// counter missing from the map shows as the unknown placeholder.
pub fn fill_symbols(stacktraces: Vec<Stacktrace>, map: &PcSymbolMap) -> (r: Vec<Stacktrace>)
    ensures
        r@.len() == stacktraces@.len(),
        forall|i: int|
            0 <= i < r@.len() ==> {
                &&& (#[trigger] r@[i]).sample_count == stacktraces@[i].sample_count
                &&& r@[i].pcs@ == stacktraces@[i].pcs@
                &&& st_symbols(r@[i]) == Some(resolved_names(stacktraces@[i].pcs@, map@))
            },
{
    let ghost input = stacktraces@;
    let mut v = stacktraces;
    let mut out: Vec<Stacktrace> = Vec::new();
    while v.len() > 0
        invariant
            out@.len() + v@.len() == input.len(),
            forall|k: int| 0 <= k < v@.len() ==> #[trigger] v@[k] == input[out@.len() + k],
            forall|i: int|
                0 <= i < out@.len() ==> {
                    &&& (#[trigger] out@[i]).sample_count == input[i].sample_count
                    &&& out@[i].pcs@ == input[i].pcs@
                    &&& st_symbols(out@[i]) == Some(resolved_names(input[i].pcs@, map@))
                },
        decreases v@.len(),
    {
        let ghost v0 = v@;
        let st = v.remove(0);
        proof {
            assert(st == input[out@.len() as int]);
            assert(forall|k: int| 0 <= k < v@.len() ==> v@[k] == v0[k + 1]);
        }
        let mut names: Vec<String> = Vec::new();
        let mut j: usize = 0;
        while j < st.pcs.len()
            invariant
                j <= st.pcs@.len(),
                names@.len() == j,
                forall|k: int|
                    0 <= k < j ==> #[trigger] names@[k]@ == resolved_names(st.pcs@, map@)[k],
            decreases st.pcs@.len() - j,
        {
            let pc = st.pcs[j];
            let name = match map.get(pc) {
                Some(n) => n.clone(),
                None => unknown_symbol(),
            };
            names.push(name);
            j = j + 1;
        }
        let filled = Stacktrace { sample_count: st.sample_count, pcs: st.pcs, symbols: Some(
            names,
        ) };
        proof {
            assert(filled.symbols matches Some(v2) && v2.deep_view() =~= resolved_names(
                filled.pcs@,
                map@,
            ));
        }
        out.push(filled);
    }
    out
}

/// What one record contributes to its folded key: its sample count, scaled
/// to microseconds by the sampling period when asked.
pub open spec fn record_count(sample_count: u64, period: u64, to_us: bool) -> int {
    if to_us {
        sample_count * period
    } else {
        sample_count as int
    }
}

/// The first position of `k` among the folded keys collected so far, or
/// `-1`.
pub open spec fn key_index(acc: Seq<(Seq<char>, int)>, k: Seq<char>) -> int
    decreases acc.len(),
{
    if acc.len() == 0 {
        -1
    } else if acc[0].0 == k {
        0
    } else {
        let r = key_index(acc.drop_first(), k);
        if r < 0 {
            -1
        } else {
            r + 1
        }
    }
}

proof fn lemma_key_index_bounds(acc: Seq<(Seq<char>, int)>, k: Seq<char>)
    ensures
        -1 <= key_index(acc, k) < acc.len(),
        key_index(acc, k) >= 0 ==> acc[key_index(acc, k)].0 == k,
    decreases acc.len(),
{
    if acc.len() > 0 && acc[0].0 != k {
        lemma_key_index_bounds(acc.drop_first(), k);
    }
}

proof fn lemma_key_index_at(acc: Seq<(Seq<char>, int)>, k: Seq<char>, j: int)
    requires
        0 <= j <= acc.len(),
        forall|w: int| 0 <= w < j ==> (#[trigger] acc[w]).0 != k,
        j < acc.len() ==> acc[j].0 == k,
    ensures
        key_index(acc, k) == if j == acc.len() {
            -1int
        } else {
            j
        },
    decreases j,
{
    if acc.len() == 0 {
    } else if j == 0 {
    } else {
        assert(forall|w: int|
            0 <= w < j - 1 ==> (#[trigger] acc.drop_first()[w]) == acc[w + 1]);
        if j - 1 < acc.drop_first().len() {
            assert(acc.drop_first()[j - 1] == acc[j]);
        }
        lemma_key_index_at(acc.drop_first(), k, j - 1);
    }
}

/// The folded-stack table after the records from `i` on are added to `acc`:
/// a record without resolved symbols, or with an empty symbol list, is
/// skipped; otherwise its count is added to its folded key's entry, a new
/// key going to the end.
pub open spec fn agg_seq(
    sts: Seq<Stacktrace>,
    i: int,
    acc: Seq<(Seq<char>, int)>,
    period: u64,
    to_us: bool,
) -> Seq<(Seq<char>, int)>
    decreases sts.len() - i
        when 0 <= i <= sts.len()
{
    if i >= sts.len() {
        acc
    } else {
        match st_symbols(sts[i]) {
            None => agg_seq(sts, i + 1, acc, period, to_us),
            Some(symbols) => if symbols.len() == 0 {
                agg_seq(sts, i + 1, acc, period, to_us)
            } else {
                let k = folded_key(symbols);
                let c = record_count(sts[i].sample_count, period, to_us);
                let j = key_index(acc, k);
                let acc2 = if j < 0 {
                    acc.push((k, c))
                } else {
                    acc.update(j, (k, acc[j].1 + c))
                };
                agg_seq(sts, i + 1, acc2, period, to_us)
            },
        }
    }
}

/// The folded-stack table of a whole trace.
pub open spec fn spec_aggregate(sts: Seq<Stacktrace>, period: u64, to_us: bool) -> Seq<
    (Seq<char>, int),
> {
    agg_seq(sts, 0, Seq::empty(), period, to_us)
}

/// Every count of the table fits in a `u64`.
pub open spec fn fits_u64(s: Seq<(Seq<char>, int)>) -> bool {
    forall|j: int| 0 <= j < s.len() ==> (#[trigger] s[j]).1 <= u64::MAX
}

proof fn lemma_agg_seq_grows(
    sts: Seq<Stacktrace>,
    i: int,
    acc: Seq<(Seq<char>, int)>,
    period: u64,
    to_us: bool,
)
    requires
        0 <= i <= sts.len(),
    ensures
        agg_seq(sts, i, acc, period, to_us).len() >= acc.len(),
        forall|j: int|
            0 <= j < acc.len() ==> (#[trigger] agg_seq(sts, i, acc, period, to_us)[j]).0
                == acc[j].0 && agg_seq(sts, i, acc, period, to_us)[j].1 >= acc[j].1,
    decreases sts.len() - i,
{
    if i < sts.len() {
        match st_symbols(sts[i]) {
            None => {
                lemma_agg_seq_grows(sts, i + 1, acc, period, to_us);
            },
            Some(symbols) => {
                if symbols.len() == 0 {
                    lemma_agg_seq_grows(sts, i + 1, acc, period, to_us);
                } else {
                    let k = folded_key(symbols);
                    let c = record_count(sts[i].sample_count, period, to_us);
                    let j = key_index(acc, k);
                    lemma_key_index_bounds(acc, k);
                    let acc2 = if j < 0 {
                        acc.push((k, c))
                    } else {
                        acc.update(j, (k, acc[j].1 + c))
                    };
                    assert(c >= 0);
                    lemma_agg_seq_grows(sts, i + 1, acc2, period, to_us);
                }
            },
        }
    }
}

/// The deduplicated folded stacks of a trace: each key once, in first-seen
/// order, with its summed count.
pub struct FoldedStacks {
    entries: Vec<(String, u64)>,
}

/// The table an entry list stands for.
pub open spec fn entries_model(s: Seq<(String, u64)>) -> Seq<(Seq<char>, int)> {
    s.map(|i: int, e: (String, u64)| (e.0@, e.1 as int))
}

impl View for FoldedStacks {
    type V = Seq<(Seq<char>, int)>;

    closed spec fn view(&self) -> Seq<(Seq<char>, int)> {
        entries_model(self.entries@)
    }
}

impl FoldedStacks {
    /// The count recorded for a folded key, if the key is present.
    pub fn count_for(&self, key: &str) -> (r: Option<u64>)
        ensures
            match r {
                Some(c) => exists|j: int|
                    0 <= j < self@.len() && #[trigger] self@[j] == (key@, c as int),
                None => forall|j: int| 0 <= j < self@.len() ==> (#[trigger] self@[j]).0 != key@,
            },
    {
        let mut j: usize = 0;
        while j < self.entries.len()
            invariant
                j <= self.entries@.len(),
                forall|w: int| 0 <= w < j ==> (#[trigger] self@[w]).0 != key@,
            decreases self.entries@.len() - j,
    {
            proof {
                assert(self@[j as int] == (self.entries@[j as int].0@, self.entries@[j as int].1
                    as int));
            }
            let ks = String::from_str(key);
            if self.entries[j].0 == ks {
                return Some(self.entries[j].1);
            }
            j = j + 1;
        }
        None
    }
}

/// Fold a trace's resolved stacks into deduplicated counted keys. Returns
/// `None` exactly when some key's total, or a microsecond conversion, does
/// not fit in 64 bits; otherwise the table holds each key once, in
/// first-seen order, with its summed count.
pub fn aggregate_stacks(
    stacktraces: &Vec<Stacktrace>,
    sampling_period: u64,
    to_microsecond: bool,
) -> (r: Option<FoldedStacks>)
    ensures
        match r {
            Some(f) => f@ == spec_aggregate(stacktraces@, sampling_period, to_microsecond),
            None => !fits_u64(spec_aggregate(stacktraces@, sampling_period, to_microsecond)),
        },
{
    let sts = stacktraces;
    let ghost m_final = spec_aggregate(sts@, sampling_period, to_microsecond);
    let mut entries: Vec<(String, u64)> = Vec::new();
    let mut i: usize = 0;
    proof {
        assert(entries_model(entries@) =~= Seq::<(Seq<char>, int)>::empty());
    }
    while i < sts.len()
        invariant
            sts == stacktraces,
            i <= sts@.len(),
            m_final == spec_aggregate(sts@, sampling_period, to_microsecond),
            agg_seq(sts@, i as int, entries_model(entries@), sampling_period, to_microsecond)
                == m_final,
        decreases sts@.len() - i,
    {
        let st = &sts[i];
        let ghost acc = entries_model(entries@);
        match &st.symbols {
            None => {
                proof {
                    assert(st_symbols(sts@[i as int]) is None);
                }
            },
            Some(symvec) => {
                if symvec.len() == 0 {
                    proof {
                        assert(st_symbols(sts@[i as int]) matches Some(dv) && dv.len() == 0);
                    }
                } else {
                    let ghost dv = symvec.deep_view();
                    proof {
                        assert(st_symbols(sts@[i as int]) == Some(dv));
                        assert(dv.len() > 0);
                    }
                    let key = folded_key_exec(symvec);
                    let ghost kspec = folded_key(dv);
                    let count: u64 = if to_microsecond {
                        match st.sample_count.checked_mul(sampling_period) {
                            Some(c) => c,
                            None => {
                                proof {
                                    let c = record_count(
                                        sts@[i as int].sample_count,
                                        sampling_period,
                                        to_microsecond,
                                    );
                                    assert(c > u64::MAX);
                                    let j = key_index(acc, kspec);
                                    lemma_key_index_bounds(acc, kspec);
                                    let acc2 = if j < 0 {
                                        acc.push((kspec, c))
                                    } else {
                                        acc.update(j, (kspec, acc[j].1 + c))
                                    };
                                    let j2 = if j < 0 {
                                        acc.len() as int
                                    } else {
                                        j
                                    };
                                    assert(acc2[j2].1 >= c);
                                    assert(agg_seq(
                                        sts@,
                                        i as int,
                                        acc,
                                        sampling_period,
                                        to_microsecond,
                                    ) == agg_seq(
                                        sts@,
                                        i + 1,
                                        acc2,
                                        sampling_period,
                                        to_microsecond,
                                    ));
                                    lemma_agg_seq_grows(
                                        sts@,
                                        i + 1,
                                        acc2,
                                        sampling_period,
                                        to_microsecond,
                                    );
                                    assert(m_final[j2].1 > u64::MAX);
                                    assert(!fits_u64(m_final));
                                }
                                return None;
                            },
                        }
                    } else {
                        st.sample_count
                    };
                    let ghost cspec = record_count(
                        sts@[i as int].sample_count,
                        sampling_period,
                        to_microsecond,
                    );
                    proof {
                        assert(cspec == count as int);
                    }
                    let mut j: usize = 0;
                    while j < entries.len() && !(entries[j].0 == key)
                        invariant
                            kspec == key@,
                            j <= entries@.len(),
                            acc == entries_model(entries@),
                            forall|w: int| 0 <= w < j ==> (#[trigger] acc[w]).0 != kspec,
                        decreases entries@.len() - j,
                    {
                        proof {
                            assert(acc[j as int] == (entries@[j as int].0@, entries@[j as int].1
                                as int));
                        }
                        j = j + 1;
                    }
                    proof {
                        if j < entries@.len() {
                            assert(acc[j as int] == (entries@[j as int].0@, entries@[j as int].1
                                as int));
                        }
                        lemma_key_index_at(acc, kspec, j as int);
                    }
                    if j < entries.len() {
                        let cur = entries[j].1;
                        match cur.checked_add(count) {
                            Some(nc) => {
                                let mut pair = entries.remove(j);
                                pair.1 = nc;
                                entries.insert(j, pair);
                                proof {
                                    assert(entries_model(entries@) =~= acc.update(
                                        j as int,
                                        (kspec, acc[j as int].1 + cspec),
                                    ));
                                }
                            },
                            None => {
                                proof {
                                    let acc2 = acc.update(
                                        j as int,
                                        (kspec, acc[j as int].1 + cspec),
                                    );
                                    assert(acc2[j as int].1 > u64::MAX);
                                    assert(agg_seq(
                                        sts@,
                                        i as int,
                                        acc,
                                        sampling_period,
                                        to_microsecond,
                                    ) == agg_seq(
                                        sts@,
                                        i + 1,
                                        acc2,
                                        sampling_period,
                                        to_microsecond,
                                    ));
                                    lemma_agg_seq_grows(
                                        sts@,
                                        i + 1,
                                        acc2,
                                        sampling_period,
                                        to_microsecond,
                                    );
                                    assert(m_final[j as int].1 > u64::MAX);
                                    assert(!fits_u64(m_final));
                                }
                                return None;
                            },
                        }
                    } else {
                        entries.push((key, count));
                        proof {
                            assert(entries_model(entries@) =~= acc.push((kspec, cspec)));
                        }
                    }
                }
            },
        }
        i = i + 1;
    }
    Some(FoldedStacks { entries })
}

/// One line of the output text: the folded key, a space, the count.
pub open spec fn stack_line(e: (Seq<char>, int)) -> Seq<char> {
    e.0 + seq![' '] + dec_value(e.1 as nat)
}

/// The lines of a folded-stack table, joined with newlines.
pub open spec fn format_lines(s: Seq<(Seq<char>, int)>) -> Seq<char>
    decreases s.len(),
{
    if s.len() == 0 {
        Seq::empty()
    } else if s.len() == 1 {
        stack_line(s[0])
    } else {
        format_lines(s.drop_last()) + seq!['\n'] + stack_line(s.last())
    }
}

/// The output text of a folded-stack table: its lines, newline-terminated.
pub open spec fn spec_format(s: Seq<(Seq<char>, int)>) -> Seq<char> {
    format_lines(s) + seq!['\n']
}

/// The argument that names the count unit for the renderer.
pub open spec fn countname_flag() -> Seq<char> {
    seq!['-', '-', 'c', 'o', 'u', 'n', 't', 'n', 'a', 'm', 'e']
}

/// The microsecond unit name.
pub open spec fn us_unit() -> Seq<char> {
    seq!['u', 's']
}

/// The rendered folded-stack text, with the renderer arguments that a
/// microsecond-scaled table needs.
#[derive(Debug)]
pub struct FlamegraphData {
    pub data: String,
    pub default_flamegraph_args: Vec<String>,
}

impl FlamegraphData {
    /// Serialize a folded-stack table: one `key count` line per entry, in
    /// table order, with a trailing newline.
    pub fn new(stacks: &FoldedStacks, to_microsecond: bool) -> (r: Self)
        ensures
            r.data@ == spec_format(stacks@),
            r.default_flamegraph_args.deep_view() == if to_microsecond {
                seq![countname_flag(), us_unit()]
            } else {
                Seq::<Seq<char>>::empty()
            },
    {
        let mut default_flamegraph_args: Vec<String> = Vec::new();
        if to_microsecond {
            default_flamegraph_args.push(String::from_str("--countname"));
            default_flamegraph_args.push(String::from_str("us"));
            proof {
                reveal_strlit("--countname");
                reveal_strlit("us");
                assert("--countname"@ =~= countname_flag());
                assert("us"@ =~= us_unit());
                assert(default_flamegraph_args.deep_view() =~~= seq![countname_flag(), us_unit()]);
            }
        } else {
            proof {
                assert(default_flamegraph_args.deep_view() =~~= Seq::<Seq<char>>::empty());
            }
        }
        let mut data = String::new();
        let n = stacks.entries.len();
        let mut i: usize = 0;
        proof {
            assert(stacks@.take(0) =~= Seq::<(Seq<char>, int)>::empty());
        }
        while i < n
            invariant
                n == stacks.entries@.len(),
                n == stacks@.len(),
                i <= n,
                data@ == format_lines(stacks@.take(i as int)),
            decreases n - i,
    {
            if i > 0 {
                push_char(&mut data, '\n');
            }
            data.append(stacks.entries[i].0.as_str());
            push_char(&mut data, ' ');
            let num = crate::text::u64_to_dec_string(stacks.entries[i].1);
            data.append(num.as_str());
            proof {
                assert(stacks@[i as int] == (stacks.entries@[i as int].0@, stacks.entries@[i
                    as int].1 as int));
                assert(stacks@.take(i + 1).last() == stacks@[i as int]);
                assert(stacks@.take(i + 1).drop_last() =~= stacks@.take(i as int));
            }
            i = i + 1;
        }
        push_char(&mut data, '\n');
        proof {
            assert(stacks@.take(n as int) =~= stacks@);
        }
        FlamegraphData { data, default_flamegraph_args }
    }
}

/// The configuration of one conversion run: the executable, the trace file,
/// whether resolution is restricted to the primary executable, and the
/// resolver once it has been built.
pub struct Gperf2Flamegraph {
    pub symbol_resolver: Option<SymbolResolver>,
    pub executable_path: String,
    pub profile_result_path: String,
    pub executable_only: bool,
}

impl Gperf2Flamegraph {
    /// A fresh converter with no resolver built yet.
    pub fn new(executable_path: &str, profile_result_path: &str, executable_only: bool) -> (r:
        Self)
        ensures
            r.symbol_resolver is None,
            r.executable_path@ == executable_path@,
            r.profile_result_path@ == profile_result_path@,
            r.executable_only == executable_only,
    {
        Gperf2Flamegraph {
            symbol_resolver: None,
            executable_path: String::from_str(executable_path),
            profile_result_path: String::from_str(profile_result_path),
            executable_only,
        }
    }
}

/// Law: a trailing unknown frame is trimmed, but a lone unknown frame stays:
/// `[a, "???"]` reduces to `[a]` for `a` other than the placeholder, while
/// `["???"]` stays `["???"]`.
pub proof fn lemma_trim_trailing_unknown(a: Seq<char>)
    requires
        a != unknown_name(),
    ensures
        trim_unknown(seq![a, unknown_name()]) == seq![a],
        trim_unknown(seq![unknown_name()]) == seq![unknown_name()],
{
    let s = seq![a, unknown_name()];
    assert(s.last() == unknown_name());
    assert(s.drop_last() =~= seq![a]);
    assert(trim_unknown(seq![a]) == seq![a]);
    assert(trim_unknown(seq![unknown_name()]) == seq![unknown_name()]);
}

/// Law: a leaf-first stack `[a, b, c]` without unknown frames folds to the
/// root-first key `c;b;a`.
pub proof fn lemma_folded_key_three(a: Seq<char>, b: Seq<char>, c: Seq<char>)
    requires
        a != unknown_name(),
        b != unknown_name(),
        c != unknown_name(),
    ensures
        folded_key(seq![a, b, c]) == c + seq![';'] + b + seq![';'] + a,
{
    let s = seq![a, b, c];
    let r = seq![c, b, a];
    assert(s.reverse() =~= r);
    assert(r.last() == a);
    assert(trim_unknown(r) == r);
    assert(r.drop_last() =~= seq![c, b]);
    assert(seq![c, b].drop_last() =~= seq![c]);
    assert(spec_join_semi(seq![c]) == c);
    assert(spec_join_semi(seq![c, b]) == c + seq![';'] + b);
    assert(spec_join_semi(r) == (c + seq![';'] + b) + seq![';'] + a);
}

/// Law: one record with non-empty resolved symbols aggregates to exactly its
/// folded key with its contributed count.
pub proof fn lemma_aggregate_single(st: Stacktrace, period: u64, to_us: bool)
    requires
        st_symbols(st) is Some,
        st_symbols(st).unwrap().len() > 0,
    ensures
        spec_aggregate(seq![st], period, to_us) == seq![
            (
                folded_key(st_symbols(st).unwrap()),
                record_count(st.sample_count, period, to_us),
            ),
        ],
{
    let k = folded_key(st_symbols(st).unwrap());
    let c = record_count(st.sample_count, period, to_us);
    let e0 = Seq::<(Seq<char>, int)>::empty();
    let s = seq![st];
    assert(key_index(e0, k) == -1);
    assert(e0.push((k, c)) =~= seq![(k, c)]);
    assert(agg_seq(s, 1, seq![(k, c)], period, to_us) == seq![(k, c)]);
    assert(agg_seq(s, 0, e0, period, to_us) == agg_seq(s, 1, e0.push((k, c)), period, to_us));
}

/// Law (additivity): two records whose stacks fold to the same key
/// aggregate to that key with the sum of their counts, never an overwrite.
pub proof fn lemma_aggregate_additive(st1: Stacktrace, st2: Stacktrace, period: u64, to_us: bool)
    requires
        st_symbols(st1) is Some,
        st_symbols(st1).unwrap().len() > 0,
        st_symbols(st2) is Some,
        st_symbols(st2).unwrap().len() > 0,
        folded_key(st_symbols(st1).unwrap()) == folded_key(st_symbols(st2).unwrap()),
    ensures
        spec_aggregate(seq![st1, st2], period, to_us) == seq![
            (
                folded_key(st_symbols(st1).unwrap()),
                record_count(st1.sample_count, period, to_us) + record_count(
                    st2.sample_count,
                    period,
                    to_us,
                ),
            ),
        ],
{
    let k = folded_key(st_symbols(st1).unwrap());
    let c1 = record_count(st1.sample_count, period, to_us);
    let c2 = record_count(st2.sample_count, period, to_us);
    let e0 = Seq::<(Seq<char>, int)>::empty();
    let s = seq![st1, st2];
    assert(key_index(e0, k) == -1);
    let acc1 = e0.push((k, c1));
    assert(acc1 =~= seq![(k, c1)]);
    assert(acc1[0].0 == k);
    assert(key_index(acc1, k) == 0);
    assert(s[1] == st2);
    let acc2 = acc1.update(0, (k, c1 + c2));
    assert(acc2 =~= seq![(k, (c1 + c2))]);
    assert(agg_seq(s, 2, acc2, period, to_us) == acc2);
    assert(agg_seq(s, 1, acc1, period, to_us) == agg_seq(s, 2, acc2, period, to_us));
    assert(agg_seq(s, 0, e0, period, to_us) == agg_seq(s, 1, acc1, period, to_us));
}

} // verus!
