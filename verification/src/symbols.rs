//! Symbol names and their display simplification.
//!
//! A raw symbol name can carry argument lists, index expressions and template
//! arguments. `cleanup_symbol` strips, in sequence, text enclosed in `()`,
//! `[]` and `<>` pairs (each pass tracks only its own bracket kind with a
//! depth counter) and then trims trailing colons. The simplification is
//! idempotent, which `lemma_cleanup_idempotent` proves.
use vstd::prelude::*;

use crate::text::chars_equal;
use crate::text::contains_char;
use crate::text::find_char_from;
use crate::text::hex_digit_value;
use crate::text::spec_fields;
use crate::text::split_fields;
use crate::text::split_single_dash;
use crate::text::starts_with_str;
use vstd::string::StringExecFns;
use crate::text::find_from;
use crate::text::hex_value;
use crate::text::is_hex_seq;
use crate::text::is_space;
use crate::text::parse_hex_u64;
use crate::text::spec_lines;
use crate::text::split_lines;
use crate::text::string_from_chars;
use crate::text::subrange_chars;
use crate::text::to_chars;

verus! {

/// Why a symbol table could not be built.
#[derive(Debug, Clone, Copy, PartialEq, Eq, Structural)]
pub enum SymbolError {
    /// A symbol line had the three-field shape but its address field is not
    /// a hexadecimal number that fits in 64 bits.
    BadAddress,
    /// A section-header line was found but its numbers do not yield a
    /// non-negative base that fits in 64 bits.
    BadSectionHeader,
}

/// One symbol-table entry: a link-time address and the raw name, with the
/// simplified name cached once it has been asked for.
#[derive(Debug)]
pub struct Symbol {
    pub address: u64,
    pub symbol: String,
    cleaned_symbol: Option<String>,
}

/// The mathematical content of a symbol entry.
pub struct SymModel {
    pub addr: u64,
    pub name: Seq<char>,
}

impl View for Symbol {
    type V = SymModel;

    closed spec fn view(&self) -> SymModel {
        SymModel { addr: self.address, name: self.symbol@ }
    }
}

/// The models of a list of symbol entries.
pub open spec fn syms_model(s: Seq<Symbol>) -> Seq<SymModel> {
    s.map(|i: int, sym: Symbol| sym@)
}

impl Symbol {
    /// The cache holds nothing, or exactly the simplified raw name.
    pub closed spec fn wf(self) -> bool {
        match self.cleaned_symbol {
            None => true,
            Some(c) => c@ == spec_cleanup(self.symbol@),
        }
    }

    /// A fresh entry with an empty cache.
    pub fn new(address: u64, symbol: String) -> (r: Symbol)
        ensures
            r@ == (SymModel { addr: address, name: symbol@ }),
            r.wf(),
    {
        Symbol { address, symbol, cleaned_symbol: None }
    }

    /// The simplified name, computed on first request and cached.
    pub fn simplified_symbol(&mut self) -> (r: &String)
        requires
            old(self).wf(),
        ensures
            final(self).wf(),
            final(self)@ == old(self)@,
            r@ == spec_cleanup(old(self)@.name),
    {
        if self.cleaned_symbol.is_none() {
            self.cleaned_symbol = Some(cleanup_symbol(self.symbol.as_str()));
        }
        match &self.cleaned_symbol {
            Some(c) => c,
            None => unreached(),
        }
    }
}

/// Entries sorted by ascending address.
pub open spec fn models_sorted(s: Seq<SymModel>) -> bool {
    forall|i: int, j: int| 0 <= i <= j < s.len() ==> #[trigger] s[i].addr <= #[trigger] s[j].addr
}

/// `e` placed before the first entry of `s` whose address is not below the
/// address of `e`.
pub open spec fn insert_model(e: SymModel, s: Seq<SymModel>) -> Seq<SymModel>
    decreases s.len(),
{
    if s.len() == 0 {
        seq![e]
    } else if s[0].addr >= e.addr {
        seq![e] + s
    } else {
        seq![s[0]] + insert_model(e, s.drop_first())
    }
}

/// Stable insertion sort of symbol models by address.
pub open spec fn sort_models(s: Seq<SymModel>) -> Seq<SymModel>
    decreases s.len(),
{
    if s.len() == 0 {
        Seq::empty()
    } else {
        insert_model(s[0], sort_models(s.drop_first()))
    }
}

proof fn lemma_insert_model_sorted(e: SymModel, s: Seq<SymModel>)
    requires
        models_sorted(s),
    ensures
        models_sorted(insert_model(e, s)),
        insert_model(e, s).len() == s.len() + 1,
        forall|i: int|
            0 <= i < insert_model(e, s).len() ==> (#[trigger] insert_model(e, s)[i] == e
                || s.contains(insert_model(e, s)[i])),
    decreases s.len(),
{
    let r = insert_model(e, s);
    if s.len() == 0 {
    } else if s[0].addr >= e.addr {
        assert(forall|i: int| 0 <= i < s.len() ==> s.contains(#[trigger] s[i]));
    } else {
        let rest = s.drop_first();
        assert(models_sorted(rest)) by {
            assert(forall|i: int, j: int|
                0 <= i <= j < rest.len() ==> rest[i] == s[i + 1] && rest[j] == s[j + 1]);
        }
        lemma_insert_model_sorted(e, rest);
        let ri = insert_model(e, rest);
        assert(forall|i: int| 0 <= i < ri.len() ==> r[i + 1] == ri[i]);
        assert(s.contains(s[0])) by {
            assert(s[0] == s[0]);
        }
        assert forall|i: int| 0 <= i < r.len() implies (#[trigger] r[i] == e || s.contains(
            r[i],
        )) by {
            if i == 0 {
            } else {
                let x = ri[i - 1];
                if x == e {
                } else {
                    let j = choose|j: int| 0 <= j < rest.len() && rest[j] == x;
                    assert(s[j + 1] == x);
                    assert(s.contains(x));
                }
            }
        }
        assert forall|i: int, j: int| 0 <= i <= j < r.len() implies r[i].addr <= r[j].addr by {
            if i == 0 && j > 0 {
                let x = ri[j - 1];
                if x == e {
                    assert(r[i].addr == s[0].addr <= e.addr);
                } else {
                    let k = choose|k: int| 0 <= k < rest.len() && rest[k] == x;
                    assert(s[0].addr <= s[k + 1].addr);
                }
            }
        }
    }
}

proof fn lemma_sort_models_sorted(s: Seq<SymModel>)
    ensures
        models_sorted(sort_models(s)),
        sort_models(s).len() == s.len(),
    decreases s.len(),
{
    if s.len() > 0 {
        lemma_sort_models_sorted(s.drop_first());
        lemma_insert_model_sorted(s[0], sort_models(s.drop_first()));
    }
}

proof fn lemma_insert_model_at(e: SymModel, s: Seq<SymModel>, k: int)
    requires
        0 <= k <= s.len(),
        forall|j: int| 0 <= j < k ==> #[trigger] s[j].addr < e.addr,
        k < s.len() ==> s[k].addr >= e.addr,
    ensures
        insert_model(e, s) == s.take(k) + seq![e] + s.skip(k),
    decreases k,
{
    if k == 0 {
        assert(s.take(0) + seq![e] + s.skip(0) =~= seq![e] + s);
        if s.len() == 0 {
            assert(seq![e] + s =~= seq![e]);
        }
    } else {
        assert(forall|j: int| 0 <= j < k - 1 ==> #[trigger] s.drop_first()[j].addr < e.addr) by {
            assert(forall|j: int|
                0 <= j < k - 1 ==> s.drop_first()[j] == s[j + 1]);
        }
        if k - 1 < s.drop_first().len() {
            assert(s.drop_first()[k - 1] == s[k]);
        }
        lemma_insert_model_at(e, s.drop_first(), k - 1);
        assert(seq![s[0]] + (s.drop_first().take(k - 1) + seq![e] + s.drop_first().skip(k - 1))
            =~= s.take(k) + seq![e] + s.skip(k));
    }
}

/// Sort symbol entries by ascending address; entries with equal addresses
/// keep their relative order.
pub fn sort_symbols_by_address(input: Vec<Symbol>) -> (r: Vec<Symbol>)
    ensures
        syms_model(r@) == sort_models(syms_model(input@)),
        models_sorted(syms_model(r@)),
{
    let ghost full = syms_model(input@);
    proof {
        lemma_sort_models_sorted(full);
    }
    let mut v = input;
    let mut out: Vec<Symbol> = Vec::new();
    while v.len() > 0
        invariant
            v@.len() <= full.len(),
            syms_model(v@) == full.take(v@.len() as int),
            syms_model(out@) == sort_models(full.skip(v@.len() as int)),
            models_sorted(syms_model(out@)),
        decreases v@.len(),
    {
        let ghost vlen = v@.len() as int;
        let ghost v0 = v@;
        let e = match v.pop() {
            Some(e) => e,
            None => unreached(),
        };
        let ghost em = e@;
        proof {
            assert(e@ == syms_model(v0)[vlen - 1]);
            assert(em == full[vlen - 1]);
            assert(syms_model(v@) =~= syms_model(v0).drop_last());
            assert(syms_model(v0).drop_last() =~= full.take(vlen - 1));
            assert(full.skip(vlen - 1)[0] == full[vlen - 1]);
            assert(full.skip(vlen - 1).drop_first() =~= full.skip(vlen));
            assert(sort_models(full.skip(vlen - 1)) == insert_model(
                em,
                sort_models(full.skip(vlen)),
            ));
        }
        let mut k: usize = 0;
        while k < out.len() && out[k].address < e.address
            invariant
                em == e@,
                k <= out@.len(),
                forall|j: int| 0 <= j < k ==> #[trigger] syms_model(out@)[j].addr < em.addr,
            decreases out@.len() - k,
        {
            proof {
                assert(syms_model(out@)[k as int] == out@[k as int]@);
            }
            k = k + 1;
        }
        let ghost out0 = syms_model(out@);
        proof {
            if k < out@.len() {
                assert(syms_model(out@)[k as int] == out@[k as int]@);
                assert(out0[k as int].addr >= em.addr);
            }
            lemma_insert_model_at(em, out0, k as int);
        }
        out.insert(k, e);
        proof {
            assert(syms_model(out@) =~= out0.take(k as int) + seq![em] + out0.skip(k as int));
            lemma_insert_model_sorted(em, out0);
        }
    }
    proof {
        assert(full.skip(0) =~= full);
        assert(syms_model(v@).len() == 0);
    }
    out
}

/// One bracket-removal pass at a given nesting depth: characters at depth
/// zero are kept, opening brackets raise the depth, closing brackets at
/// positive depth lower it, everything else inside brackets is dropped.
pub open spec fn remove_brackets_at(s: Seq<char>, depth: nat, b: char, e: char) -> Seq<char>
    decreases s.len(),
{
    if s.len() == 0 {
        Seq::empty()
    } else {
        let c = s[0];
        let rest = s.drop_first();
        if c == b {
            remove_brackets_at(rest, depth + 1, b, e)
        } else if c == e && depth > 0 {
            remove_brackets_at(rest, (depth - 1) as nat, b, e)
        } else if depth == 0 {
            seq![c] + remove_brackets_at(rest, 0, b, e)
        } else {
            remove_brackets_at(rest, depth, b, e)
        }
    }
}

/// What one whole bracket-removal pass leaves of `s`.
pub open spec fn remove_brackets(s: Seq<char>, b: char, e: char) -> Seq<char> {
    remove_brackets_at(s, 0, b, e)
}

/// `s` without trailing colon characters.
pub open spec fn trim_colons(s: Seq<char>) -> Seq<char>
    decreases s.len(),
{
    if s.len() > 0 && s.last() == ':' {
        trim_colons(s.drop_last())
    } else {
        s
    }
}

/// The simplified form of a raw symbol name: the three bracket passes in
/// sequence, then the trailing colons trimmed.
pub open spec fn spec_cleanup(s: Seq<char>) -> Seq<char> {
    trim_colons(
        remove_brackets(remove_brackets(remove_brackets(s, '(', ')'), '[', ']'), '<', '>'),
    )
}

proof fn lemma_remove_no_open(s: Seq<char>, depth: nat, b: char, e: char)
    requires
        b != e,
    ensures
        !remove_brackets_at(s, depth, b, e).contains(b),
    decreases s.len(),
{
    if s.len() > 0 {
        let c = s[0];
        let rest = s.drop_first();
        if c == b {
            lemma_remove_no_open(rest, depth + 1, b, e);
        } else if c == e && depth > 0 {
            lemma_remove_no_open(rest, (depth - 1) as nat, b, e);
        } else if depth == 0 {
            lemma_remove_no_open(rest, 0, b, e);
            assert forall|i: int|
                0 <= i < remove_brackets_at(s, depth, b, e).len() implies remove_brackets_at(
                s,
                depth,
                b,
                e,
            )[i] != b by {
                if i > 0 {
                    assert(remove_brackets_at(s, depth, b, e)[i] == remove_brackets_at(
                        rest,
                        0,
                        b,
                        e,
                    )[i - 1]);
                }
            }
        } else {
            lemma_remove_no_open(rest, depth, b, e);
        }
    }
}

proof fn lemma_remove_no_new_char(s: Seq<char>, depth: nat, b: char, e: char, x: char)
    requires
        !s.contains(x),
    ensures
        !remove_brackets_at(s, depth, b, e).contains(x),
    decreases s.len(),
{
    if s.len() > 0 {
        let c = s[0];
        let rest = s.drop_first();
        assert(!rest.contains(x)) by {
            assert forall|i: int| 0 <= i < rest.len() implies rest[i] != x by {
                assert(rest[i] == s[i + 1]);
            }
        }
        if c == b {
            lemma_remove_no_new_char(rest, depth + 1, b, e, x);
        } else if c == e && depth > 0 {
            lemma_remove_no_new_char(rest, (depth - 1) as nat, b, e, x);
        } else if depth == 0 {
            lemma_remove_no_new_char(rest, 0, b, e, x);
            assert(s.contains(c)) by {
                assert(s[0] == c);
            }
            assert forall|i: int|
                0 <= i < remove_brackets_at(s, depth, b, e).len() implies remove_brackets_at(
                s,
                depth,
                b,
                e,
            )[i] != x by {
                if i > 0 {
                    assert(remove_brackets_at(s, depth, b, e)[i] == remove_brackets_at(
                        rest,
                        0,
                        b,
                        e,
                    )[i - 1]);
                }
            }
        } else {
            lemma_remove_no_new_char(rest, depth, b, e, x);
        }
    }
}

proof fn lemma_remove_without_open_is_identity(s: Seq<char>, b: char, e: char)
    requires
        !s.contains(b),
    ensures
        remove_brackets_at(s, 0, b, e) == s,
    decreases s.len(),
{
    if s.len() > 0 {
        let c = s[0];
        let rest = s.drop_first();
        assert(s[0] != b);
        assert(!rest.contains(b)) by {
            assert forall|i: int| 0 <= i < rest.len() implies rest[i] != b by {
                assert(rest[i] == s[i + 1]);
            }
        }
        lemma_remove_without_open_is_identity(rest, b, e);
        assert(seq![c] + rest =~= s);
    }
}

proof fn lemma_trim_keeps_absence(s: Seq<char>, x: char)
    requires
        !s.contains(x),
    ensures
        !trim_colons(s).contains(x),
    decreases s.len(),
{
    if s.len() > 0 && s.last() == ':' {
        assert(!s.drop_last().contains(x)) by {
            assert forall|i: int| 0 <= i < s.drop_last().len() implies s.drop_last()[i] != x by {
                assert(s.drop_last()[i] == s[i]);
            }
        }
        lemma_trim_keeps_absence(s.drop_last(), x);
    }
}

proof fn lemma_trim_idempotent(s: Seq<char>)
    ensures
        trim_colons(trim_colons(s)) == trim_colons(s),
    decreases s.len(),
{
    if s.len() > 0 && s.last() == ':' {
        lemma_trim_idempotent(s.drop_last());
    }
}

/// Law: simplifying an already simplified name changes nothing, for every
/// input: `spec_cleanup(spec_cleanup(s)) == spec_cleanup(s)`.
pub proof fn lemma_cleanup_idempotent(s: Seq<char>)
    ensures
        spec_cleanup(spec_cleanup(s)) == spec_cleanup(s),
{
    let r1 = remove_brackets(s, '(', ')');
    let r2 = remove_brackets(r1, '[', ']');
    let r3 = remove_brackets(r2, '<', '>');
    let y = trim_colons(r3);
    lemma_remove_no_open(s, 0, '(', ')');
    lemma_remove_no_new_char(r1, 0, '[', ']', '(');
    lemma_remove_no_open(r1, 0, '[', ']');
    lemma_remove_no_new_char(r2, 0, '<', '>', '(');
    lemma_remove_no_new_char(r2, 0, '<', '>', '[');
    lemma_remove_no_open(r2, 0, '<', '>');
    lemma_trim_keeps_absence(r3, '(');
    lemma_trim_keeps_absence(r3, '[');
    lemma_trim_keeps_absence(r3, '<');
    lemma_remove_without_open_is_identity(y, '(', ')');
    lemma_remove_without_open_is_identity(y, '[', ']');
    lemma_remove_without_open_is_identity(y, '<', '>');
    lemma_trim_idempotent(r3);
}

/// What one line of a symbol dump means: not an entry at all (fewer than two
/// single-space separators), a malformed entry (an address field that is not
/// hexadecimal or does not fit), or an entry.
pub enum NmLineModel {
    Skip,
    Bad,
    Entry(SymModel),
}

/// Reading of one `address type name` line, split at the first two single
/// spaces; the name is everything after the second space.
pub open spec fn nm_line_model(line: Seq<char>) -> NmLineModel {
    let i = find_from(line, 0, ' ');
    if i == line.len() {
        NmLineModel::Skip
    } else {
        let j = find_from(line, i + 1, ' ');
        if j == line.len() {
            NmLineModel::Skip
        } else {
            let f0 = line.take(i);
            if is_hex_seq(f0) && hex_value(f0) <= u64::MAX {
                NmLineModel::Entry(
                    SymModel { addr: hex_value(f0) as u64, name: line.skip(j + 1) },
                )
            } else {
                NmLineModel::Bad
            }
        }
    }
}

/// The entries named by a symbol dump from line `i` on, in line order, or
/// the error of the first malformed entry line.
pub open spec fn nm_entries(lines: Seq<Seq<char>>, i: int) -> Result<Seq<SymModel>, SymbolError>
    decreases lines.len() - i
        when 0 <= i <= lines.len()
{
    if i >= lines.len() {
        Ok(Seq::empty())
    } else {
        match nm_line_model(lines[i]) {
            NmLineModel::Skip => nm_entries(lines, i + 1),
            NmLineModel::Bad => Err(SymbolError::BadAddress),
            NmLineModel::Entry(m) => match nm_entries(lines, i + 1) {
                Ok(rest) => Ok(seq![m] + rest),
                Err(e) => Err(e),
            },
        }
    }
}

/// What a whole symbol dump yields: its entries sorted by address.
pub open spec fn spec_nm_symbols(text: Seq<char>) -> Result<Seq<SymModel>, SymbolError> {
    match nm_entries(spec_lines(text), 0) {
        Ok(entries) => Ok(sort_models(entries)),
        Err(e) => Err(e),
    }
}

/// Is a symbol dump blank (nothing but whitespace), so that the next
/// extraction strategy should be tried?
pub fn nm_output_is_blank(text: &str) -> (r: bool)
    ensures
        r == (forall|i: int| 0 <= i < text@.len() ==> is_space(#[trigger] text@[i])),
{
    let chars = to_chars(text);
    let mut i: usize = 0;
    while i < chars.len()
        invariant
            chars@ == text@,
            i <= text@.len(),
            forall|k: int| 0 <= k < i ==> is_space(#[trigger] text@[k]),
        decreases text@.len() - i,
    {
        let c = chars[i];
        let ws = c == ' ' || c == '\t' || c == '\n' || c == '\r' || c == '\u{000b}' || c
            == '\u{000c}';
        if !ws {
            return false;
        }
        i = i + 1;
    }
    true
}

/// Parse one symbol dump (`address type name` lines) and sort the entries by
/// ascending address; entries with equal addresses keep their line order.
/// Lines without the three-field shape are ignored; a three-field line whose
/// address is not a 64-bit hexadecimal number is an error.
pub fn find_object_all_symbols_sorted(nm_output: &str) -> (r: Result<Vec<Symbol>, SymbolError>)
    ensures
        match r {
            Ok(v) => {
                &&& spec_nm_symbols(nm_output@) matches Ok(ms)
                &&& syms_model(v@) == ms
                &&& models_sorted(syms_model(v@))
            },
            Err(e) => spec_nm_symbols(nm_output@) == Err::<Seq<SymModel>, SymbolError>(e),
        },
{
    let chars = to_chars(nm_output);
    let lines = split_lines(&chars);
    let ghost dv = lines.deep_view();
    let mut entries: Vec<Symbol> = Vec::new();
    let mut i: usize = 0;
    proof {
        assert(syms_model(entries@) =~= Seq::<SymModel>::empty());
        match nm_entries(dv, 0) {
            Ok(rest) => {
                assert(syms_model(entries@) + rest =~= rest);
            },
            Err(e) => {},
        }
    }
    while i < lines.len()
        invariant
            i <= lines@.len(),
            dv == lines.deep_view(),
            dv == spec_lines(nm_output@),
            dv.len() == lines@.len(),
            nm_entries(dv, 0) == match nm_entries(dv, i as int) {
                Ok(rest) => Ok::<_, SymbolError>(syms_model(entries@) + rest),
                Err(e) => Err(e),
            },
        decreases lines@.len() - i,
    {
        let line = &lines[i];
        proof {
            assert(dv[i as int] == line@);
        }
        let sp1 = find_char_from(line, 0, ' ');
        if sp1 < line.len() {
            let sp2 = find_char_from(line, sp1 + 1, ' ');
            if sp2 < line.len() {
                let f0 = subrange_chars(line, 0, sp1);
                proof {
                    assert(f0@ =~= line@.take(sp1 as int));
                }
                match parse_hex_u64(&f0) {
                    Some(addr) => {
                        let name_chars = subrange_chars(line, sp2 + 1, line.len());
                        let name = string_from_chars(&name_chars);
                        let sym = Symbol::new(addr, name);
                        let ghost em = SymModel { addr: addr, name: line@.skip(sp2 + 1) };
                        let ghost m0 = syms_model(entries@);
                        proof {
                            assert(name_chars@ =~= line@.skip(sp2 + 1));
                            assert(nm_line_model(dv[i as int]) == NmLineModel::Entry(em));
                        }
                        entries.push(sym);
                        proof {
                            assert(syms_model(entries@) =~= m0.push(em));
                            match nm_entries(dv, i + 1) {
                                Ok(rest) => {
                                    assert(m0 + (seq![em] + rest) =~= m0.push(em) + rest);
                                },
                                Err(e) => {},
                            }
                        }
                    },
                    None => {
                        proof {
                            assert(nm_line_model(dv[i as int]) == NmLineModel::Bad);
                        }
                        return Err(SymbolError::BadAddress);
                    },
                }
            }
        }
        i = i + 1;
    }
    proof {
        assert(nm_entries(dv, dv.len() as int) == Ok::<Seq<SymModel>, SymbolError>(Seq::empty()));
        match nm_entries(dv, 0) {
            Ok(rest) => {
                assert(syms_model(entries@) + Seq::<SymModel>::empty() =~= syms_model(entries@));
            },
            Err(e) => {},
        }
    }
    let sorted = sort_symbols_by_address(entries);
    Ok(sorted)
}

/// A lowercase hexadecimal digit, the only digits a section-header table
/// writes.
pub open spec fn is_lower_hex(c: char) -> bool {
    let n = c as u32;
    (48 <= n && n <= 57) || (97 <= n && n <= 102)
}

/// The first position at or after `i` that does not hold whitespace.
pub open spec fn ws_end(s: Seq<char>, i: int) -> int
    decreases s.len() - i
        when 0 <= i <= s.len()
{
    if i >= s.len() {
        s.len() as int
    } else if !is_space(s[i]) {
        i
    } else {
        ws_end(s, i + 1)
    }
}

/// The first position at or after `i` that does not hold a lowercase hex
/// digit.
pub open spec fn hexrun_end(s: Seq<char>, i: int) -> int
    decreases s.len() - i
        when 0 <= i <= s.len()
{
    if i >= s.len() {
        s.len() as int
    } else if !is_lower_hex(s[i]) {
        i
    } else {
        hexrun_end(s, i + 1)
    }
}

fn scan_spaces(s: &Vec<char>, start: usize) -> (r: usize)
    requires
        start <= s@.len(),
    ensures
        r == ws_end(s@, start as int),
        start <= r <= s@.len(),
{
    let mut i: usize = start;
    while i < s.len() && (s[i] == ' ' || s[i] == '\t' || s[i] == '\n' || s[i] == '\r' || s[i]
        == '\u{000b}' || s[i] == '\u{000c}')
        invariant
            start <= i <= s@.len(),
            ws_end(s@, start as int) == ws_end(s@, i as int),
        decreases s@.len() - i,
    {
        i = i + 1;
    }
    i
}

fn scan_lower_hex(s: &Vec<char>, start: usize) -> (r: usize)
    requires
        start <= s@.len(),
    ensures
        r == hexrun_end(s@, start as int),
        start <= r <= s@.len(),
        forall|k: int| start <= k < r ==> is_lower_hex(#[trigger] s@[k]),
{
    let mut i: usize = start;
    while i < s.len() && ((48 <= (s[i] as u32) && (s[i] as u32) <= 57) || (97 <= (s[i] as u32) && (
    s[i] as u32) <= 102))
        invariant
            start <= i <= s@.len(),
            hexrun_end(s@, start as int) == hexrun_end(s@, i as int),
            forall|k: int| start <= k < i ==> is_lower_hex(#[trigger] s@[k]),
        decreases s@.len() - i,
    {
        i = i + 1;
    }
    i
}

/// What the section matcher sees at position `i`: the code-section marker,
/// the section type, then two runs of lowercase hex digits (the section's
/// virtual address and its file offset), each part separated by whitespace.
pub open spec fn sect_match_at(s: Seq<char>, i: int) -> Option<(Seq<char>, Seq<char>)> {
    if !(0 <= i && i + 5 <= s.len() && s.subrange(i, i + 5) == seq!['.', 't', 'e', 'x', 't']) {
        None
    } else {
        let k1 = ws_end(s, i + 5);
        if k1 == i + 5 || !(k1 + 8 <= s.len() && s.subrange(k1, k1 + 8) == seq![
            'P',
            'R',
            'O',
            'G',
            'B',
            'I',
            'T',
            'S',
        ]) {
            None
        } else {
            let k2 = ws_end(s, k1 + 8);
            if k2 == k1 + 8 {
                None
            } else {
                let h1 = hexrun_end(s, k2);
                if h1 == k2 {
                    None
                } else {
                    let k3 = ws_end(s, h1);
                    if k3 == h1 {
                        None
                    } else {
                        let h2 = hexrun_end(s, k3);
                        if h2 == k3 {
                            None
                        } else {
                            Some((s.subrange(k2, h1), s.subrange(k3, h2)))
                        }
                    }
                }
            }
        }
    }
}

/// The leftmost section-header match in `s` from position `i` on.
pub open spec fn sect_scan(s: Seq<char>, i: int) -> Option<(Seq<char>, Seq<char>)>
    decreases s.len() - i
        when 0 <= i <= s.len()
{
    if i >= s.len() {
        None
    } else if sect_match_at(s, i) is Some {
        sect_match_at(s, i)
    } else {
        sect_scan(s, i + 1)
    }
}

/// The pre-link base a section-header dump yields: code-section virtual
/// address minus file offset, zero when no code-section line is found, and
/// an error when a number overflows 64 bits or the difference is negative.
pub open spec fn spec_start_vma(s: Seq<char>) -> Result<u64, SymbolError> {
    match sect_scan(s, 0) {
        None => Ok(0),
        Some(caps) => if hex_value(caps.0) > u64::MAX || hex_value(caps.1) > u64::MAX {
            Err(SymbolError::BadSectionHeader)
        } else if hex_value(caps.0) < hex_value(caps.1) {
            Err(SymbolError::BadSectionHeader)
        } else {
            Ok((hex_value(caps.0) - hex_value(caps.1)) as u64)
        },
    }
}

fn sect_match_exec(s: &Vec<char>, i: usize) -> (r: Option<(Vec<char>, Vec<char>)>)
    requires
        i < s@.len(),
    ensures
        match r {
            Some(p) => sect_match_at(s@, i as int) == Some((p.0@, p.1@)) && is_hex_seq(p.0@)
                && is_hex_seq(p.1@),
            None => sect_match_at(s@, i as int) is None,
        },
{
    let n = s.len();
    if n - i < 5 {
        return None;
    }
    if !(s[i] == '.' && s[i + 1] == 't' && s[i + 2] == 'e' && s[i + 3] == 'x' && s[i + 4] == 't') {
        proof {
            let lit = seq!['.', 't', 'e', 'x', 't'];
            if s@.subrange(i as int, i + 5) == lit {
                assert(s@[i as int] == lit[0] && s@[i + 1] == lit[1] && s@[i + 2] == lit[2] && s@[i
                    + 3] == lit[3] && s@[i + 4] == lit[4]) by {
                    assert(forall|k: int|
                        0 <= k < 5 ==> #[trigger] s@.subrange(i as int, i + 5)[k] == s@[i + k]);
                }
            }
        }
        return None;
    }
    proof {
        assert(s@.subrange(i as int, i + 5) =~= seq!['.', 't', 'e', 'x', 't']);
    }
    let k1 = scan_spaces(s, i + 5);
    if k1 == i + 5 {
        return None;
    }
    if n - k1 < 8 {
        return None;
    }
    if !(s[k1] == 'P' && s[k1 + 1] == 'R' && s[k1 + 2] == 'O' && s[k1 + 3] == 'G' && s[k1 + 4]
        == 'B' && s[k1 + 5] == 'I' && s[k1 + 6] == 'T' && s[k1 + 7] == 'S') {
        proof {
            let lit = seq!['P', 'R', 'O', 'G', 'B', 'I', 'T', 'S'];
            if s@.subrange(k1 as int, k1 + 8) == lit {
                assert(forall|k: int|
                    0 <= k < 8 ==> #[trigger] s@.subrange(k1 as int, k1 + 8)[k] == s@[k1 + k]);
            }
        }
        return None;
    }
    proof {
        assert(s@.subrange(k1 as int, k1 + 8) =~= seq!['P', 'R', 'O', 'G', 'B', 'I', 'T', 'S']);
    }
    let k2 = scan_spaces(s, k1 + 8);
    if k2 == k1 + 8 {
        return None;
    }
    let h1 = scan_lower_hex(s, k2);
    if h1 == k2 {
        return None;
    }
    let k3 = scan_spaces(s, h1);
    if k3 == h1 {
        return None;
    }
    let h2 = scan_lower_hex(s, k3);
    if h2 == k3 {
        return None;
    }
    let c1 = subrange_chars(s, k2, h1);
    let c2 = subrange_chars(s, k3, h2);
    proof {
        assert(forall|k: int| 0 <= k < c1@.len() ==> c1@[k] == s@[k2 + k]);
        assert(forall|k: int| 0 <= k < c2@.len() ==> c2@[k] == s@[k3 + k]);
        assert(forall|k: int|
            0 <= k < c1@.len() ==> #[trigger] hex_digit_value(c1@[k]) is Some);
        assert(forall|k: int|
            0 <= k < c2@.len() ==> #[trigger] hex_digit_value(c2@[k]) is Some);
    }
    Some((c1, c2))
}

/// Scan a section-header dump for the code section's line and compute the
/// pre-link base: the section's virtual address minus its file offset; zero
/// when the dump has no such line.
pub fn find_object_start_vma_before_linked(readelf_output: &str) -> (r: Result<u64, SymbolError>)
    ensures
        r == spec_start_vma(readelf_output@),
{
    let chars = to_chars(readelf_output);
    let mut i: usize = 0;
    while i < chars.len()
        invariant
            chars@ == readelf_output@,
            i <= chars@.len(),
            sect_scan(chars@, 0) == sect_scan(chars@, i as int),
        decreases chars@.len() - i,
    {
        match sect_match_exec(&chars, i) {
            Some(caps) => {
                proof {
                    assert(sect_scan(chars@, i as int) == Some((caps.0@, caps.1@)));
                }
                let v1 = parse_hex_u64(&caps.0);
                let v2 = parse_hex_u64(&caps.1);
                match (v1, v2) {
                    (Some(a), Some(b)) => {
                        if a >= b {
                            return Ok(a - b);
                        } else {
                            return Err(SymbolError::BadSectionHeader);
                        }
                    },
                    _ => {
                        return Err(SymbolError::BadSectionHeader);
                    },
                }
            },
            None => {
                i = i + 1;
            },
        }
    }
    Ok(0)
}

/// `p` without its trailing slashes.
pub open spec fn strip_trailing_slashes(p: Seq<char>) -> Seq<char>
    decreases p.len(),
{
    if p.len() > 0 && p.last() == '/' {
        strip_trailing_slashes(p.drop_last())
    } else {
        p
    }
}

/// The suffix of `p` after its last slash.
pub open spec fn last_component(p: Seq<char>) -> Seq<char>
    decreases p.len(),
{
    if p.len() == 0 {
        p
    } else if p.last() == '/' {
        Seq::empty()
    } else {
        last_component(p.drop_last()).push(p.last())
    }
}

/// The file name a path names: the part after the last slash, trailing
/// slashes ignored; nothing for an empty path or one that ends in `..`.
pub open spec fn file_name_of(p: Seq<char>) -> Option<Seq<char>> {
    let q = strip_trailing_slashes(p);
    if q.len() == 0 {
        None
    } else {
        let n = last_component(q);
        if n == seq!['.', '.'] {
            None
        } else {
            Some(n)
        }
    }
}

proof fn lemma_last_component_at(p: Seq<char>, j: int)
    requires
        0 <= j <= p.len(),
        forall|k: int| j <= k < p.len() ==> p[k] != '/',
        j > 0 ==> p[j - 1] == '/',
    ensures
        last_component(p) == p.skip(j),
    decreases p.len() - j,
{
    if p.len() == j {
        if j > 0 {
            assert(p.last() == '/');
        }
        assert(p.skip(j) =~= last_component(p));
    } else {
        assert(p.last() != '/');
        assert(forall|k: int| j <= k < p.drop_last().len() ==> p.drop_last()[k] != '/');
        if j > 0 {
            assert(p.drop_last()[j - 1] == p[j - 1]);
        }
        lemma_last_component_at(p.drop_last(), j);
        assert(p.drop_last().skip(j).push(p.last()) =~= p.skip(j));
    }
}

/// The file name of a path, as `file_name_of` defines it.
pub fn file_name_chars(p: &Vec<char>) -> (r: Option<Vec<char>>)
    ensures
        match r {
            Some(v) => file_name_of(p@) == Some(v@),
            None => file_name_of(p@) is None,
        },
{
    let mut e: usize = p.len();
    proof {
        assert(p@.take(p@.len() as int) =~= p@);
    }
    while e > 0 && p[e - 1] == '/'
        invariant
            e <= p@.len(),
            strip_trailing_slashes(p@) == strip_trailing_slashes(p@.take(e as int)),
        decreases e,
    {
        proof {
            assert(p@.take(e as int).last() == p@[e - 1]);
            assert(p@.take(e as int).drop_last() =~= p@.take(e - 1));
        }
        e = e - 1;
    }
    proof {
        if e > 0 {
            assert(p@.take(e as int).last() == p@[e - 1]);
        }
        assert(strip_trailing_slashes(p@.take(e as int)) == p@.take(e as int));
    }
    if e == 0 {
        return None;
    }
    let ghost q = p@.take(e as int);
    let mut j: usize = e;
    while j > 0 && p[j - 1] != '/'
        invariant
            j <= e <= p@.len(),
            forall|k: int| j <= k < e ==> p@[k] != '/',
        decreases j,
    {
        j = j - 1;
    }
    proof {
        assert(forall|k: int| j <= k < q.len() ==> q[k] == p@[k]);
        if j > 0 {
            assert(q[j - 1] == p@[j - 1]);
        }
        lemma_last_component_at(q, j as int);
        assert(q.skip(j as int) =~= p@.subrange(j as int, e as int));
    }
    let name = subrange_chars(p, j, e);
    if name.len() == 2 && name[0] == '.' && name[1] == '.' {
        proof {
            assert(name@ =~= seq!['.', '.']);
        }
        return None;
    }
    proof {
        if name@.len() == 2 {
            assert(name@ != seq!['.', '.']) by {
                assert(seq!['.', '.'][0] == '.' && seq!['.', '.'][1] == '.');
            }
        } else {
            assert(name@ != seq!['.', '.']) by {
                assert(seq!['.', '.'].len() == 2);
            }
        }
    }
    Some(name)
}

/// A mapped-object line that survived parsing: its address range, file
/// offset, backing path, and whether it is the primary executable.
#[derive(Debug)]
pub struct PlannedObject {
    pub start_address: u64,
    pub end_address: u64,
    pub offset: u64,
    pub obj_path: String,
    pub is_executable: bool,
}

/// The mathematical content of a planned object.
pub struct PlannedModel {
    pub start: u64,
    pub end: u64,
    pub offset: u64,
    pub path: Seq<char>,
    pub is_exec: bool,
}

impl View for PlannedObject {
    type V = PlannedModel;

    open spec fn view(&self) -> PlannedModel {
        PlannedModel {
            start: self.start_address,
            end: self.end_address,
            offset: self.offset,
            path: self.obj_path@,
            is_exec: self.is_executable,
        }
    }
}

/// The models of a list of planned objects.
pub open spec fn planned_models(s: Seq<PlannedObject>) -> Seq<PlannedModel> {
    s.map(|i: int, o: PlannedObject| o@)
}

/// What one mapped-object line yields: `None` for build-id marker lines,
/// lines without exactly six fields, non-executable mappings, malformed
/// numbers, and (under `executable_only`) non-primary objects. The object
/// is primary when its file name equals the executable's file name; the
/// executable path then replaces the path found in the text.
pub open spec fn map_line_object(line: Seq<char>, exe: Seq<char>, executable_only: bool) -> Option<
    PlannedModel,
> {
    if line.len() >= 6 && line.take(6) == seq!['b', 'u', 'i', 'l', 'd', '='] {
        None
    } else {
        let fields = spec_fields(line);
        if fields.len() != 6 {
            None
        } else if !fields[1].contains('x') {
            None
        } else {
            let f0 = fields[0];
            let k = find_from(f0, 0, '-');
            if !(k < f0.len() && find_from(f0, k + 1, '-') == f0.len()) {
                None
            } else {
                let a = f0.take(k);
                let b = f0.skip(k + 1);
                if !(is_hex_seq(a) && hex_value(a) <= u64::MAX && is_hex_seq(b) && hex_value(b)
                    <= u64::MAX && is_hex_seq(fields[2]) && hex_value(fields[2]) <= u64::MAX) {
                    None
                } else {
                    let is_exec = file_name_of(fields[5]) == file_name_of(exe);
                    if executable_only && !is_exec {
                        None
                    } else {
                        Some(
                            PlannedModel {
                                start: hex_value(a) as u64,
                                end: hex_value(b) as u64,
                                offset: hex_value(fields[2]) as u64,
                                path: if is_exec {
                                    exe
                                } else {
                                    fields[5]
                                },
                                is_exec,
                            },
                        )
                    }
                }
            }
        }
    }
}

/// The objects the mapped-object lines from `i` on yield, in line order.
pub open spec fn map_objects(
    lines: Seq<Seq<char>>,
    i: int,
    exe: Seq<char>,
    executable_only: bool,
) -> Seq<PlannedModel>
    decreases lines.len() - i
        when 0 <= i <= lines.len()
{
    if i >= lines.len() {
        Seq::empty()
    } else {
        match map_line_object(lines[i], exe, executable_only) {
            Some(m) => seq![m] + map_objects(lines, i + 1, exe, executable_only),
            None => map_objects(lines, i + 1, exe, executable_only),
        }
    }
}

/// Parse the mapped-objects text: one object per well-formed executable
/// mapping line, in first-seen order; malformed lines are skipped, never an
/// error.
pub fn parse_mapped_objects(
    proc_mapped_objects: &str,
    executable: &str,
    executable_only: bool,
) -> (r: Vec<PlannedObject>)
    ensures
        planned_models(r@) == map_objects(
            spec_lines(proc_mapped_objects@),
            0,
            executable@,
            executable_only,
        ),
{
    let chars = to_chars(proc_mapped_objects);
    let lines = split_lines(&chars);
    let ghost dv = lines.deep_view();
    let exe_chars = to_chars(executable);
    let exe_name = file_name_chars(&exe_chars);
    let mut out: Vec<PlannedObject> = Vec::new();
    let mut i: usize = 0;
    proof {
        assert(planned_models(out@) =~= Seq::<PlannedModel>::empty());
        assert(planned_models(out@) + map_objects(dv, 0, executable@, executable_only)
            =~= map_objects(dv, 0, executable@, executable_only));
    }
    while i < lines.len()
        invariant
            i <= lines@.len(),
            dv == lines.deep_view(),
            dv == spec_lines(proc_mapped_objects@),
            dv.len() == lines@.len(),
            exe_chars@ == executable@,
            match exe_name {
                Some(v) => file_name_of(executable@) == Some(v@),
                None => file_name_of(executable@) is None,
            },
            planned_models(out@) + map_objects(dv, i as int, executable@, executable_only)
                == map_objects(dv, 0, executable@, executable_only),
        decreases lines@.len() - i,
    {
        let line = &lines[i];
        proof {
            assert(dv[i as int] == line@);
        }
        let planned = parse_map_line_inner(line, executable, &exe_name, executable_only);
        match planned {
            Some(po) => {
                let ghost out0 = planned_models(out@);
                let ghost pm = po@;
                out.push(po);
                proof {
                    assert(planned_models(out@) =~= out0.push(pm));
                    assert(out0 + (seq![pm] + map_objects(
                        dv,
                        i + 1,
                        executable@,
                        executable_only,
                    )) =~= out0.push(pm) + map_objects(dv, i + 1, executable@, executable_only));
                }
            },
            None => {},
        }
        i = i + 1;
    }
    proof {
        assert(map_objects(dv, dv.len() as int, executable@, executable_only)
            =~= Seq::<PlannedModel>::empty());
        assert(planned_models(out@) + Seq::<PlannedModel>::empty() =~= planned_models(out@));
    }
    out
}

/// Read one mapped-object line against the executable's file name.
fn parse_map_line_inner(
    line: &Vec<char>,
    executable: &str,
    exe_name: &Option<Vec<char>>,
    executable_only: bool,
) -> (r: Option<PlannedObject>)
    requires
        match exe_name {
            Some(v) => file_name_of(executable@) == Some(v@),
            None => file_name_of(executable@) is None,
        },
    ensures
        match r {
            Some(po) => map_line_object(line@, executable@, executable_only) == Some(po@),
            None => map_line_object(line@, executable@, executable_only) is None,
        },
{
    if starts_with_str(line, "build=") {
        proof {
            reveal_strlit("build=");
            assert("build="@ =~= seq!['b', 'u', 'i', 'l', 'd', '=']);
        }
        return None;
    }
    proof {
        reveal_strlit("build=");
        assert("build="@ =~= seq!['b', 'u', 'i', 'l', 'd', '=']);
        if line@.len() >= 6 && line@.take(6) == seq!['b', 'u', 'i', 'l', 'd', '='] {
            assert(line@.take(6) == "build="@);
            assert(false);
        }
    }
    let fields = split_fields(line);
    let ghost fdv = fields.deep_view();
    if fields.len() != 6 {
        return None;
    }
    proof {
        assert(fdv[1] == fields@[1]@);
        assert(fdv[0] == fields@[0]@);
        assert(fdv[2] == fields@[2]@);
        assert(fdv[5] == fields@[5]@);
    }
    if !contains_char(&fields[1], 'x') {
        return None;
    }
    let parts = match split_single_dash(&fields[0]) {
        Some(parts) => parts,
        None => {
            return None;
        },
    };
    let start_address = match parse_hex_u64(&parts.0) {
        Some(v) => v,
        None => {
            return None;
        },
    };
    let end_address = match parse_hex_u64(&parts.1) {
        Some(v) => v,
        None => {
            return None;
        },
    };
    let offset = match parse_hex_u64(&fields[2]) {
        Some(v) => v,
        None => {
            return None;
        },
    };
    let line_name = file_name_chars(&fields[5]);
    let is_executable = match (&line_name, exe_name) {
        (Some(a), Some(b)) => chars_equal(a, b),
        (None, None) => true,
        _ => false,
    };
    if executable_only && !is_executable {
        return None;
    }
    let obj_path = if is_executable {
        String::from_str(executable)
    } else {
        string_from_chars(&fields[5])
    };
    Some(
        PlannedObject { start_address, end_address, offset, obj_path, is_executable },
    )
}

/// What the caller hands the resolver for one surviving mapped object: the
/// parsed line, the object's symbols (in dump order) and its pre-link base.
pub struct ObjectData {
    pub planned: PlannedObject,
    pub symbols: Vec<Symbol>,
    pub obj_start_vma: u64,
}

/// The mathematical content of one loaded object inside the resolver.
pub struct ObjModel {
    pub start: u64,
    pub end: u64,
    pub offset: u64,
    pub vma: u64,
    pub is_exec: bool,
    pub path: Seq<char>,
    pub syms: Seq<SymModel>,
}

/// The model the resolver keeps for an object: its symbols sorted by
/// address.
pub open spec fn obj_model_of(od: ObjectData) -> ObjModel {
    ObjModel {
        start: od.planned.start_address,
        end: od.planned.end_address,
        offset: od.planned.offset,
        vma: od.obj_start_vma,
        is_exec: od.planned.is_executable,
        path: od.planned.obj_path@,
        syms: sort_models(syms_model(od.symbols@)),
    }
}

/// A runtime program counter translated into the object's link-time
/// coordinates: undo the mapping base, add back the file offset and the
/// pre-link base. The additions wrap around 64 bits.
pub open spec fn translated_addr(pc: u64, start: u64, offset: u64, vma: u64) -> u64 {
    (((pc - start) as u64).wrapping_add(offset)).wrapping_add(vma)
}

/// The greatest index whose entry's address is at or below `t`; `-1` when
/// every entry lies above `t`.
pub open spec fn floor_index(syms: Seq<SymModel>, t: u64) -> int
    decreases syms.len(),
{
    if syms.len() == 0 {
        -1
    } else if syms.last().addr <= t {
        syms.len() - 1
    } else {
        floor_index(syms.drop_last(), t)
    }
}

proof fn lemma_floor_index_some(syms: Seq<SymModel>, t: u64, i: int)
    requires
        0 <= i < syms.len(),
        syms[i].addr <= t,
        forall|j: int| i < j < syms.len() ==> #[trigger] syms[j].addr > t,
    ensures
        floor_index(syms, t) == i,
    decreases syms.len(),
{
    if i < syms.len() - 1 {
        assert(forall|j: int|
            i < j < syms.drop_last().len() ==> #[trigger] syms.drop_last()[j].addr > t);
        lemma_floor_index_some(syms.drop_last(), t, i);
    }
}

proof fn lemma_floor_index_none(syms: Seq<SymModel>, t: u64)
    requires
        forall|j: int| 0 <= j < syms.len() ==> #[trigger] syms[j].addr > t,
    ensures
        floor_index(syms, t) == -1,
    decreases syms.len(),
{
    if syms.len() > 0 {
        lemma_floor_index_none(syms.drop_last(), t);
    }
}

/// The display form of a resolved name: simplified if asked, and marked with
/// the owning object's file name for non-primary objects if asked.
pub open spec fn display_name(
    name: Seq<char>,
    o: ObjModel,
    simplify: bool,
    annotate: bool,
) -> Seq<char> {
    let base = if simplify {
        spec_cleanup(name)
    } else {
        name
    };
    if annotate && !o.is_exec {
        match file_name_of(o.path) {
            Some(f) => base + seq![' ', '['] + f + seq![']'],
            None => base,
        }
    } else {
        base
    }
}

/// What one object makes of a program counter: the display name of the
/// nearest symbol at or below the translated address, for counters inside
/// the object's range.
pub open spec fn try_object(o: ObjModel, pc: u64, simplify: bool, annotate: bool) -> Option<
    Seq<char>,
> {
    if !(o.start <= pc && pc < o.end) {
        None
    } else {
        let t = translated_addr(pc, o.start, o.offset, o.vma);
        let idx = floor_index(o.syms, t);
        if idx < 0 {
            None
        } else {
            Some(display_name(o.syms[idx].name, o, simplify, annotate))
        }
    }
}

/// What the whole object list makes of a program counter; when ranges
/// overlap, the later object wins.
pub open spec fn resolve_pc(objs: Seq<ObjModel>, pc: u64, simplify: bool, annotate: bool) -> Option<
    Seq<char>,
>
    decreases objs.len(),
{
    if objs.len() == 0 {
        None
    } else {
        match try_object(objs.last(), pc, simplify, annotate) {
            Some(n) => Some(n),
            None => resolve_pc(objs.drop_last(), pc, simplify, annotate),
        }
    }
}

/// The batch result: exactly the given counters that some object resolves,
/// each mapped to its display name.
pub open spec fn batch_model(
    objs: Seq<ObjModel>,
    pcs: Seq<u64>,
    simplify: bool,
    annotate: bool,
) -> Map<u64, Seq<char>> {
    Map::new(
        |pc: u64| pcs.contains(pc) && resolve_pc(objs, pc, simplify, annotate) is Some,
        |pc: u64| resolve_pc(objs, pc, simplify, annotate).unwrap(),
    )
}

/// A finite map from program counters to resolved display names.
pub struct PcSymbolMap {
    entries: Vec<(u64, String)>,
}

/// The map an entry list stands for; a later entry overrides an earlier one
/// with the same key.
pub open spec fn assoc_map(s: Seq<(u64, String)>) -> Map<u64, Seq<char>>
    decreases s.len(),
{
    if s.len() == 0 {
        Map::empty()
    } else {
        assoc_map(s.drop_last()).insert(s.last().0, s.last().1@)
    }
}

impl View for PcSymbolMap {
    type V = Map<u64, Seq<char>>;

    closed spec fn view(&self) -> Map<u64, Seq<char>> {
        assoc_map(self.entries@)
    }
}

impl PcSymbolMap {
    /// An empty map.
    pub fn new() -> (r: Self)
        ensures
            r@ == Map::<u64, Seq<char>>::empty(),
    {
        PcSymbolMap { entries: Vec::new() }
    }

    /// Bind `pc` to `name`, overriding an earlier binding.
    pub fn insert(&mut self, pc: u64, name: String)
        ensures
            final(self)@ == old(self)@.insert(pc, name@),
    {
        let ghost e0 = self.entries@;
        self.entries.push((pc, name));
        proof {
            assert(self.entries@.drop_last() =~= e0);
        }
    }

    /// The name bound to `pc`, if any.
    pub fn get(&self, pc: u64) -> (r: Option<&String>)
        ensures
            match r {
                Some(name) => self@.contains_key(pc) && name@ == self@[pc],
                None => !self@.contains_key(pc),
            },
    {
        let mut j: usize = self.entries.len();
        proof {
            assert(self.entries@.take(self.entries@.len() as int) =~= self.entries@);
        }
        while j > 0
            invariant
                j <= self.entries@.len(),
                self@.contains_key(pc) == assoc_map(self.entries@.take(j as int)).contains_key(pc),
                self@.contains_key(pc) ==> self@[pc] == assoc_map(
                    self.entries@.take(j as int),
                )[pc],
            decreases j,
        {
            let e = &self.entries[j - 1];
            proof {
                assert(self.entries@.take(j as int).last() == self.entries@[j - 1]);
                assert(self.entries@.take(j as int).drop_last() =~= self.entries@.take(j - 1));
            }
            if e.0 == pc {
                return Some(&e.1);
            }
            j = j - 1;
        }
        proof {
            assert(self.entries@.take(0) =~= Seq::<(u64, String)>::empty());
        }
        None
    }
}

struct MappedObject {
    start_address: u64,
    end_address: u64,
    offset: u64,
    obj_path: String,
    is_executable: bool,
    all_symbols_sorted: Vec<Symbol>,
    all_addrs_sorted: Vec<u64>,
    obj_start_vma: u64,
}

impl MappedObject {
    spec fn model(&self) -> ObjModel {
        ObjModel {
            start: self.start_address,
            end: self.end_address,
            offset: self.offset,
            vma: self.obj_start_vma,
            is_exec: self.is_executable,
            path: self.obj_path@,
            syms: syms_model(self.all_symbols_sorted@),
        }
    }

    spec fn wf(&self) -> bool {
        &&& self.all_addrs_sorted@.len() == self.all_symbols_sorted@.len()
        &&& forall|i: int|
            0 <= i < self.all_addrs_sorted@.len() ==> #[trigger] self.all_addrs_sorted@[i]
                == syms_model(self.all_symbols_sorted@)[i].addr
        &&& models_sorted(syms_model(self.all_symbols_sorted@))
    }
}

/// Resolves program counters to symbol names over the loaded objects of one
/// trace.
pub struct SymbolResolver {
    objects: Vec<MappedObject>,
}

impl View for SymbolResolver {
    type V = Seq<ObjModel>;

    closed spec fn view(&self) -> Seq<ObjModel> {
        self.objects@.map(|i: int, o: MappedObject| o.model())
    }
}

/// Find the greatest index whose address is at or below `target` in a
/// sorted address table, by binary search.
pub fn floor_search(addrs: &Vec<u64>, target: u64) -> (r: Option<usize>)
    requires
        forall|i: int, j: int|
            0 <= i <= j < addrs@.len() ==> #[trigger] addrs@[i] <= #[trigger] addrs@[j],
    ensures
        match r {
            Some(i) => i < addrs@.len() && addrs@[i as int] <= target && (forall|j: int|
                i < j < addrs@.len() ==> #[trigger] addrs@[j] > target),
            None => forall|j: int| 0 <= j < addrs@.len() ==> #[trigger] addrs@[j] > target,
        },
{
    let mut lo: usize = 0;
    let mut hi: usize = addrs.len();
    while lo < hi
        invariant
            lo <= hi <= addrs@.len(),
            forall|k: int| 0 <= k < lo ==> #[trigger] addrs@[k] <= target,
            forall|k: int| hi <= k < addrs@.len() ==> #[trigger] addrs@[k] > target,
            forall|i: int, j: int|
                0 <= i <= j < addrs@.len() ==> #[trigger] addrs@[i] <= #[trigger] addrs@[j],
        decreases hi - lo,
    {
        let mid = lo + (hi - lo) / 2;
        if addrs[mid] <= target {
            proof {
                assert(forall|k: int| 0 <= k <= mid ==> #[trigger] addrs@[k] <= target);
            }
            lo = mid + 1;
        } else {
            proof {
                assert(forall|k: int|
                    mid <= k < addrs@.len() ==> #[trigger] addrs@[k] > target);
            }
            hi = mid;
        }
    }
    if lo == 0 {
        None
    } else {
        Some(lo - 1)
    }
}

impl SymbolResolver {
    /// The resolver's internal tables are consistent with its model.
    pub closed spec fn wf(&self) -> bool {
        forall|i: int| 0 <= i < self.objects@.len() ==> #[trigger] self.objects@[i].wf()
    }

    /// Build a resolver from the surviving objects: each object's symbols
    /// are sorted by address and indexed for floor lookup.
    pub fn new(objects: Vec<ObjectData>) -> (r: Self)
        ensures
            r.wf(),
            r@.len() == objects@.len(),
            forall|i: int| 0 <= i < objects@.len() ==> r@[i] == obj_model_of(#[trigger] objects@[i]),
    {
        let ghost input = objects@;
        let mut v = objects;
        let mut built: Vec<MappedObject> = Vec::new();
        while v.len() > 0
            invariant
                built@.len() + v@.len() == input.len(),
                forall|k: int| 0 <= k < v@.len() ==> #[trigger] v@[k] == input[built@.len() + k],
                forall|k: int| 0 <= k < built@.len() ==> #[trigger] built@[k].wf(),
                forall|k: int|
                    0 <= k < built@.len() ==> #[trigger] built@[k].model() == obj_model_of(
                        input[k],
                    ),
            decreases v@.len(),
        {
            let ghost v0 = v@;
            let od = v.remove(0);
            proof {
                assert(od == input[built@.len() as int]);
                assert(forall|k: int| 0 <= k < v@.len() ==> v@[k] == v0[k + 1]);
            }
            let sorted = sort_symbols_by_address(od.symbols);
            let mut addrs: Vec<u64> = Vec::new();
            let mut si: usize = 0;
            while si < sorted.len()
                invariant
                    si <= sorted@.len(),
                    addrs@.len() == si,
                    forall|k: int|
                        0 <= k < si ==> #[trigger] addrs@[k] == syms_model(sorted@)[k].addr,
                decreases sorted@.len() - si,
            {
                let a = sorted[si].address;
                proof {
                    assert(syms_model(sorted@)[si as int] == sorted@[si as int]@);
                }
                addrs.push(a);
                si = si + 1;
            }
            let mo = MappedObject {
                start_address: od.planned.start_address,
                end_address: od.planned.end_address,
                offset: od.planned.offset,
                obj_path: od.planned.obj_path,
                is_executable: od.planned.is_executable,
                all_symbols_sorted: sorted,
                all_addrs_sorted: addrs,
                obj_start_vma: od.obj_start_vma,
            };
            proof {
                assert(mo.wf());
                assert(mo.model() == obj_model_of(input[built@.len() as int]));
            }
            built.push(mo);
        }
        let r = SymbolResolver { objects: built };
        proof {
            assert(r@.len() == input.len());
            assert(forall|i: int|
                0 <= i < input.len() ==> #[trigger] r@[i] == built@[i].model());
        }
        r
    }

    /// Resolve every given program counter that falls in some object's range
    /// and has a symbol at or below its translated address; the result binds
    /// exactly those counters to their display names.
    pub fn resolve_symbols_batch(
        &self,
        pcs: &Vec<u64>,
        simplify_symbol: bool,
        annotate_libname: bool,
    ) -> (r: PcSymbolMap)
        requires
            self.wf(),
        ensures
            r@ == batch_model(self@, pcs@, simplify_symbol, annotate_libname),
    {
        let mut result = PcSymbolMap::new();
        let mut p: usize = 0;
        proof {
            assert(result@ =~~= batch_model(
                self@,
                pcs@.take(0),
                simplify_symbol,
                annotate_libname,
            ));
        }
        while p < pcs.len()
            invariant
                self.wf(),
                p <= pcs@.len(),
                result@ == batch_model(
                    self@,
                    pcs@.take(p as int),
                    simplify_symbol,
                    annotate_libname,
                ),
            decreases pcs@.len() - p,
        {
            let pc = pcs[p];
            let found = self.resolve_one_pc(pc, simplify_symbol, annotate_libname);
            proof {
                assert(pcs@.take(p + 1).drop_last() =~= pcs@.take(p as int));
                assert(pcs@.take(p + 1).last() == pcs@[p as int]);
                assert(forall|k: u64|
                    #[trigger] pcs@.take(p + 1).contains(k) <==> (pcs@.take(p as int).contains(k)
                        || k == pc)) by {
                    assert forall|k: u64| #[trigger] pcs@.take(p + 1).contains(k) implies (pcs@.take(
                        p as int,
                    ).contains(k) || k == pc) by {
                        let w = choose|w: int|
                            0 <= w < pcs@.take(p + 1).len() && #[trigger] pcs@.take(p + 1)[w]
                                == k;
                        if w < p {
                            assert(pcs@.take(p as int)[w] == k);
                        }
                    }
                    assert forall|k: u64|
                        pcs@.take(p as int).contains(k) || k == pc implies #[trigger] pcs@.take(
                        p + 1,
                    ).contains(k) by {
                        if pcs@.take(p as int).contains(k) {
                            let w = choose|w: int|
                                0 <= w < pcs@.take(p as int).len() && #[trigger] pcs@.take(
                                    p as int,
                                )[w] == k;
                            assert(pcs@.take(p + 1)[w] == k);
                        } else {
                            assert(pcs@.take(p + 1)[p as int] == k);
                        }
                    }
                }
            }
            match found {
                Some(name) => {
                    result.insert(pc, name);
                    proof {
                        assert(result@ =~~= batch_model(
                            self@,
                            pcs@.take(p + 1),
                            simplify_symbol,
                            annotate_libname,
                        ));
                    }
                },
                None => {
                    proof {
                        assert(result@ =~~= batch_model(
                            self@,
                            pcs@.take(p + 1),
                            simplify_symbol,
                            annotate_libname,
                        ));
                    }
                },
            }
            p = p + 1;
        }
        proof {
            assert(pcs@.take(pcs@.len() as int) =~= pcs@);
        }
        result
    }

    /// What the object list makes of one program counter; later objects win.
    fn resolve_one_pc(&self, pc: u64, simplify_symbol: bool, annotate_libname: bool) -> (r: Option<
        String,
    >)
        requires
            self.wf(),
        ensures
            match r {
                Some(name) => resolve_pc(self@, pc, simplify_symbol, annotate_libname) == Some(
                    name@,
                ),
                None => resolve_pc(self@, pc, simplify_symbol, annotate_libname) is None,
            },
    {
        let mut oi: usize = self.objects.len();
        proof {
            assert(self@.take(self@.len() as int) =~= self@);
        }
        while oi > 0
            invariant
                self.wf(),
                oi <= self.objects@.len(),
                self@.len() == self.objects@.len(),
                resolve_pc(self@, pc, simplify_symbol, annotate_libname) == resolve_pc(
                    self@.take(oi as int),
                    pc,
                    simplify_symbol,
                    annotate_libname,
                ),
            decreases oi,
        {
            let obj = &self.objects[oi - 1];
            let ghost om = obj.model();
            proof {
                assert(self@[oi - 1] == om);
                assert(self@.take(oi as int).last() == self@[oi - 1]);
                assert(self@.take(oi as int).drop_last() =~= self@.take(oi - 1));
            }
            if pc >= obj.start_address && pc < obj.end_address {
                let base = pc - obj.start_address;
                let t = base.wrapping_add(obj.offset).wrapping_add(obj.obj_start_vma);
                proof {
                    assert(t == translated_addr(pc, om.start, om.offset, om.vma));
                    assert(obj.wf());
                }
                match floor_search(&obj.all_addrs_sorted, t) {
                    Some(idx) => {
                        proof {
                            assert(om.syms.len() == obj.all_addrs_sorted@.len());
                            assert(forall|j: int|
                                0 <= j < om.syms.len() ==> #[trigger] om.syms[j].addr
                                    == obj.all_addrs_sorted@[j]);
                            assert(forall|j: int|
                                idx < j < om.syms.len() ==> #[trigger] om.syms[j].addr > t);
                            lemma_floor_index_some(om.syms, t, idx as int);
                            assert(syms_model(obj.all_symbols_sorted@)[idx as int]
                                == obj.all_symbols_sorted@[idx as int]@);
                        }
                        let sym = &obj.all_symbols_sorted[idx];
                        let base_name = if simplify_symbol {
                            cleanup_symbol(sym.symbol.as_str())
                        } else {
                            sym.symbol.clone()
                        };
                        if annotate_libname && !obj.is_executable {
                            let path_chars = to_chars(obj.obj_path.as_str());
                            match file_name_chars(&path_chars) {
                                Some(f) => {
                                    let mut nm = base_name;
                                    nm.append(" [");
                                    let fs = string_from_chars(&f);
                                    nm.append(fs.as_str());
                                    nm.append("]");
                                    proof {
                                        reveal_strlit(" [");
                                        reveal_strlit("]");
                                        assert(" ["@ =~= seq![' ', '[']);
                                        assert("]"@ =~= seq![']']);
                                        assert(nm@ == display_name(
                                            om.syms[idx as int].name,
                                            om,
                                            simplify_symbol,
                                            annotate_libname,
                                        ));
                                    }
                                    return Some(nm);
                                },
                                None => {
                                    return Some(base_name);
                                },
                            }
                        } else {
                            return Some(base_name);
                        }
                    },
                    None => {
                        proof {
                            assert(om.syms.len() == obj.all_addrs_sorted@.len());
                            assert(forall|j: int|
                                0 <= j < om.syms.len() ==> #[trigger] om.syms[j].addr
                                    == obj.all_addrs_sorted@[j]);
                            assert(forall|j: int|
                                0 <= j < om.syms.len() ==> #[trigger] om.syms[j].addr > t);
                            lemma_floor_index_none(om.syms, t);
                        }
                    },
                }
            }
            oi = oi - 1;
        }
        proof {
            assert(self@.take(0) =~= Seq::<ObjModel>::empty());
        }
        None
    }
}

/// One bracket-removal pass over a name: drops each `_begin`/`_end` pair of
/// `s` together with the text the pair encloses, tracking nesting with a
/// depth counter; unmatched closing brackets outside any pair are kept.
pub fn remove_matching_brackets(s: &str, _begin: char, _end: char) -> (r: String)
    ensures
        r@ == remove_brackets(s@, _begin, _end),
{
    let chars = to_chars(s);
    let n = chars.len();
    let mut out: Vec<char> = Vec::new();
    let mut depth: usize = 0;
    let mut i: usize = 0;
    proof {
        assert(chars@.skip(0) =~= chars@);
        assert(Seq::<char>::empty() + remove_brackets_at(chars@, 0, _begin, _end)
            =~= remove_brackets_at(chars@, 0, _begin, _end));
    }
    while i < n
        invariant
            n == chars@.len(),
            chars@ == s@,
            i <= n,
            depth <= i,
            out@ + remove_brackets_at(chars@.skip(i as int), depth as nat, _begin, _end)
                == remove_brackets(chars@, _begin, _end),
        decreases n - i,
    {
        let c = chars[i];
        proof {
            assert(chars@.skip(i as int)[0] == chars@[i as int]);
            assert(chars@.skip(i as int).drop_first() =~= chars@.skip(i + 1));
        }
        if c == _begin {
            depth = depth + 1;
        } else if c == _end && depth > 0 {
            depth = depth - 1;
        } else if depth == 0 {
            proof {
                assert(out@ + (seq![c] + remove_brackets_at(
                    chars@.skip(i + 1),
                    depth as nat,
                    _begin,
                    _end,
                )) =~= out@.push(c) + remove_brackets_at(
                    chars@.skip(i + 1),
                    depth as nat,
                    _begin,
                    _end,
                ));
            }
            out.push(c);
        }
        i = i + 1;
    }
    proof {
        assert(chars@.skip(n as int) =~= Seq::<char>::empty());
        assert(out@ + Seq::<char>::empty() =~= out@);
    }
    string_from_chars(&out)
}

/// The display simplification of a raw symbol name: remove `()`, `[]` and
/// `<>` enclosed text in three sequential passes, then trim trailing colons.
pub fn cleanup_symbol(s: &str) -> (r: String)
    ensures
        r@ == spec_cleanup(s@),
{
    let s1 = remove_matching_brackets(s, '(', ')');
    let s2 = remove_matching_brackets(s1.as_str(), '[', ']');
    let s3 = remove_matching_brackets(s2.as_str(), '<', '>');
    let chars = to_chars(s3.as_str());
    let mut j: usize = chars.len();
    proof {
        assert(chars@.take(chars@.len() as int) =~= chars@);
    }
    loop
        invariant
            j <= chars@.len(),
            trim_colons(chars@) == trim_colons(chars@.take(j as int)),
        ensures
            j == 0 || chars@[j - 1] != ':',
        decreases j,
    {
        if j == 0 {
            break;
        }
        let c = chars[j - 1];
        if c != ':' {
            break;
        }
        proof {
            assert(chars@.take(j as int).last() == chars@[j - 1]);
            assert(chars@.take(j as int).drop_last() =~= chars@.take(j - 1));
        }
        j = j - 1;
    }
    proof {
        if j > 0 {
            assert(chars@.take(j as int).last() == chars@[j - 1]);
        }
        assert(trim_colons(chars@.take(j as int)) == chars@.take(j as int));
    }
    let mut out: Vec<char> = Vec::new();
    let mut k: usize = 0;
    while k < j
        invariant
            k <= j <= chars@.len(),
            out@ == chars@.take(j as int).take(k as int),
        decreases j - k,
    {
        out.push(chars[k]);
        proof {
            assert(chars@.take(j as int).take(k + 1) =~= chars@.take(j as int).take(k as int).push(
                chars@[k as int],
            ));
        }
        k = k + 1;
    }
    proof {
        assert(chars@.take(j as int).take(j as int) =~= chars@.take(j as int));
        assert(chars@.take(chars@.len() as int) =~= chars@);
    }
    string_from_chars(&out)
}

} // verus!
