//! The rule-file parser: a line scanner for `KEY OP "VALUE"` terms, the
//! fold of scanned terms into a `Rule`, and directory parsing with the
//! ascending-numeric-prefix file order.

use vstd::prelude::*;
use vstd::string::*;

use crate::matcher::Rule;
use crate::matcher::RuleV;
use crate::matcher::empty_rule;
use crate::strutil::find_char;
use crate::strutil::find_char_spec;
use crate::strutil::is_digit;
use crate::strutil::is_digit_exec;
use crate::strutil::digits_val;
use crate::strutil::parse_u32;
use crate::strutil::parse_uint_spec;
use crate::strutil::str_eq;
use crate::strutil::substr_string;
use crate::strutil::trim;
use crate::strutil::trim_spec;

verus! {

/// The operator of one rule term.
#[derive(Debug, Clone, Copy, PartialEq, Eq, Structural)]
pub enum Op {
    /// `==`: a match predicate.
    OpMatch,
    /// `+=`: an addition to a list.
    OpAdd,
    /// `=`: a plain assignment.
    OpAssign,
}

/// The key of one rule term: a bare upper-case key, `ENV{...}` or
/// `ATTR{...}` with the wrapped text.
#[derive(Debug, Clone)]
pub enum RuleKey {
    Plain(String),
    Env(String),
    Attr(String),
}

/// The mathematical shadow of `RuleKey`.
pub enum KeyV {
    Plain(Seq<char>),
    Env(Seq<char>),
    Attr(Seq<char>),
}

impl View for RuleKey {
    type V = KeyV;

    open spec fn view(&self) -> KeyV {
        match self {
            RuleKey::Plain(s) => KeyV::Plain(s@),
            RuleKey::Env(s) => KeyV::Env(s@),
            RuleKey::Attr(s) => KeyV::Attr(s@),
        }
    }
}

/// One scanned `KEY OP "VALUE"` term.
#[derive(Debug, Clone)]
pub struct Token {
    pub key: RuleKey,
    pub op: Op,
    pub val: String,
}

/// The mathematical shadow of `Token`.
pub struct TokenV {
    pub key: KeyV,
    pub op: Op,
    pub val: Seq<char>,
}

impl View for Token {
    type V = TokenV;

    open spec fn view(&self) -> TokenV {
        TokenV { key: self.key@, op: self.op, val: self.val@ }
    }
}

impl DeepView for Token {
    type V = TokenV;

    open spec fn deep_view(&self) -> TokenV {
        self@
    }
}

/// May `c` stand in a bare key?
pub open spec fn is_key_char(c: char) -> bool {
    ('A' <= c && c <= 'Z') || c == '_'
}

/// Is `c` a bare-key character, executably.
fn is_key_char_exec(c: char) -> (r: bool)
    ensures
        r == is_key_char(c),
{
    ('A' <= c && c <= 'Z') || c == '_'
}

/// The end of the run of bare-key characters that starts at `i`.
pub open spec fn key_run_end(s: Seq<char>, i: int) -> int
    decreases s.len() - i
        when 0 <= i <= s.len()
{
    if i >= s.len() {
        i
    } else if is_key_char(s[i]) {
        key_run_end(s, i + 1)
    } else {
        i
    }
}

proof fn lemma_key_run_end(s: Seq<char>, i: int)
    requires
        0 <= i <= s.len(),
    ensures
        i <= key_run_end(s, i) <= s.len(),
        forall|m: int| i <= m < key_run_end(s, i) ==> is_key_char(#[trigger] s[m]),
        key_run_end(s, i) < s.len() ==> !is_key_char(s[key_run_end(s, i)]),
    decreases s.len() - i,
{
    if i < s.len() && is_key_char(s[i]) {
        lemma_key_run_end(s, i + 1);
    }
}

/// The key-character run is determined by its endpoints.
proof fn lemma_key_run_end_is(s: Seq<char>, i: int, j: int)
    requires
        0 <= i <= j <= s.len(),
        forall|m: int| i <= m < j ==> is_key_char(#[trigger] s[m]),
        j < s.len() ==> !is_key_char(s[j]),
    ensures
        key_run_end(s, i) == j,
    decreases j - i,
{
    if i < j {
        lemma_key_run_end_is(s, i + 1, j);
    }
}

/// The operator that stands at `j`, with its end: `==` and `+=` before the
/// bare `=`.
pub open spec fn op_at(s: Seq<char>, j: int) -> Option<(Op, int)> {
    if j + 2 <= s.len() && s[j] == '=' && s[j + 1] == '=' {
        Option::Some((Op::OpMatch, j + 2))
    } else if j + 2 <= s.len() && s[j] == '+' && s[j + 1] == '=' {
        Option::Some((Op::OpAdd, j + 2))
    } else if j + 1 <= s.len() && s[j] == '=' {
        Option::Some((Op::OpAssign, j + 1))
    } else {
        Option::None
    }
}

/// The double-quoted value that stands at `k`: the text up to the next
/// quote, with the end just past it.
pub open spec fn val_at(s: Seq<char>, k: int) -> Option<(Seq<char>, int)> {
    if 0 <= k < s.len() && s[k] == '"' {
        match find_char_spec(s, '"', k + 1) {
            Option::None => Option::None,
            Option::Some(m) => Option::Some((s.subrange(k + 1, m), m + 1)),
        }
    } else {
        Option::None
    }
}

/// Operator and value back to back, from `j`.
pub open spec fn opval_at(s: Seq<char>, j: int) -> Option<(Op, Seq<char>, int)> {
    match op_at(s, j) {
        Option::None => Option::None,
        Option::Some((op, k)) => match val_at(s, k) {
            Option::None => Option::None,
            Option::Some((v, e)) => Option::Some((op, v, e)),
        },
    }
}

/// A whole term, once its key has been read up to `j`.
pub open spec fn term_after_key(s: Seq<char>, key: KeyV, j: int) -> Option<(TokenV, int)> {
    match opval_at(s, j) {
        Option::None => Option::None,
        Option::Some((op, v, e)) => Option::Some((TokenV { key, op, val: v }, e)),
    }
}

/// Does `ENV{` stand at `i`?
pub open spec fn has_env_prefix(s: Seq<char>, i: int) -> bool {
    &&& i + 4 <= s.len()
    &&& s[i] == 'E'
    &&& s[i + 1] == 'N'
    &&& s[i + 2] == 'V'
    &&& s[i + 3] == '{'
}

/// Does `ATTR{` stand at `i`?
pub open spec fn has_attr_prefix(s: Seq<char>, i: int) -> bool {
    &&& i + 5 <= s.len()
    &&& s[i] == 'A'
    &&& s[i + 1] == 'T'
    &&& s[i + 2] == 'T'
    &&& s[i + 3] == 'R'
    &&& s[i + 4] == '{'
}

/// The text wrapped in braces from `i + plen` to the first `'}'`, with the
/// position just past that brace.
pub open spec fn wrapped_key_end(s: Seq<char>, i: int, plen: int) -> Option<(Seq<char>, int)> {
    match find_char_spec(s, '}', i + plen) {
        Option::None => Option::None,
        Option::Some(m) => Option::Some((s.subrange(i + plen, m), m + 1)),
    }
}

/// The term that starts at `i`, if any: a bare key first, then `ENV{...}`,
/// then `ATTR{...}`, each followed directly by an operator and a quoted
/// value.
pub open spec fn term_at(s: Seq<char>, i: int) -> Option<(TokenV, int)> {
    let j = key_run_end(s, i);
    let plain = if j > i {
        term_after_key(s, KeyV::Plain(s.subrange(i, j)), j)
    } else {
        Option::None
    };
    if plain.is_some() {
        plain
    } else if has_env_prefix(s, i) {
        match wrapped_key_end(s, i, 4) {
            Option::None => Option::None,
            Option::Some((inner, m)) => term_after_key(s, KeyV::Env(inner), m),
        }
    } else if has_attr_prefix(s, i) {
        match wrapped_key_end(s, i, 5) {
            Option::None => Option::None,
            Option::Some((inner, m)) => term_after_key(s, KeyV::Attr(inner), m),
        }
    } else {
        Option::None
    }
}

/// An operator-and-value pair found at `j` ends after `j`, within the text.
proof fn lemma_opval_range(s: Seq<char>, j: int)
    requires
        0 <= j,
    ensures
        opval_at(s, j) matches Option::Some(ove) ==> j < ove.2 <= s.len(),
{
    match op_at(s, j) {
        Option::Some(ok) => {
            let k = ok.1;
            if 0 <= k < s.len() && s[k] == '"' {
                crate::strutil::lemma_find_char_in_range(s, '"', k + 1);
            }
        },
        Option::None => {},
    }
}

/// A term found at `i` ends after `i` and within the text.
proof fn lemma_term_at_range(s: Seq<char>, i: int)
    requires
        0 <= i,
    ensures
        term_at(s, i) matches Option::Some(te) ==> i < te.1 <= s.len(),
{
    if i <= s.len() {
        lemma_key_run_end(s, i);
        let j = key_run_end(s, i);
        lemma_opval_range(s, j);
        if has_env_prefix(s, i) {
            crate::strutil::lemma_find_char_in_range(s, '}', i + 4);
            match find_char_spec(s, '}', i + 4) {
                Option::Some(m) => lemma_opval_range(s, m + 1),
                Option::None => {},
            }
        }
        if has_attr_prefix(s, i) {
            crate::strutil::lemma_find_char_in_range(s, '}', i + 5);
            match find_char_spec(s, '}', i + 5) {
                Option::Some(m) => lemma_opval_range(s, m + 1),
                Option::None => {},
            }
        }
    }
}

/// All the terms of `s` at or after `i`, scanned left to right; positions
/// where no term starts are stepped over.
pub open spec fn scan_spec(s: Seq<char>, i: int) -> Seq<TokenV>
    decreases s.len() - i
        when 0 <= i
        via scan_spec_dec
{
    if i >= s.len() {
        Seq::empty()
    } else {
        match term_at(s, i) {
            Option::None => scan_spec(s, i + 1),
            Option::Some((t, e)) => if e > i {
                seq![t] + scan_spec(s, e)
            } else {
                seq![t]
            },
        }
    }
}

#[via_fn]
proof fn scan_spec_dec(s: Seq<char>, i: int) {
    if 0 <= i && i < s.len() {
        lemma_term_at_range(s, i);
    }
}

/// Read the operator and quoted value that stand at `j`.
fn try_opval(line: &str, j: usize) -> (r: Option<(Op, String, usize)>)
    requires
        j <= line@.len(),
    ensures
        match r {
            Some((op, v, e)) => opval_at(line@, j as int) == Option::Some((op, v@, e as int))
                && j < e <= line@.len(),
            None => opval_at(line@, j as int).is_none(),
        },
{
    let n = line.unicode_len();
    let (op, k): (Op, usize) = if j < n && line.get_char(j) == '=' && j + 1 < n && line.get_char(
        j + 1,
    ) == '=' {
        (Op::OpMatch, j + 2)
    } else if j < n && line.get_char(j) == '+' && j + 1 < n && line.get_char(j + 1) == '=' {
        (Op::OpAdd, j + 2)
    } else if j < n && line.get_char(j) == '=' {
        (Op::OpAssign, j + 1)
    } else {
        return None;
    };
    if k < n && line.get_char(k) == '"' {
        match find_char(line, '"', k + 1) {
            Some(m) => {
                let v = substr_string(line, k + 1, m);
                Some((op, v, m + 1))
            },
            None => None,
        }
    } else {
        None
    }
}

/// Read the term that starts at `i`, if any.
fn try_term(line: &str, i: usize) -> (r: Option<(Token, usize)>)
    requires
        i < line@.len(),
    ensures
        match r {
            Some((tok, e)) => term_at(line@, i as int) == Option::Some((tok@, e as int)) && i < e
                <= line@.len(),
            None => term_at(line@, i as int).is_none(),
        },
{
    let n = line.unicode_len();
    let mut j: usize = i;
    while j < n && is_key_char_exec(line.get_char(j))
        invariant
            i <= j <= n,
            n == line@.len(),
            forall|m: int| i <= m < j ==> is_key_char(#[trigger] line@[m]),
        decreases n - j,
    {
        j = j + 1;
    }
    proof {
        lemma_key_run_end_is(line@, i as int, j as int);
    }
    if j > i {
        match try_opval(line, j) {
            Some((op, v, e)) => {
                let key = RuleKey::Plain(substr_string(line, i, j));
                return Some((Token { key, op, val: v }, e));
            },
            None => {},
        }
    }
    if n - i >= 4 && line.get_char(i) == 'E' && line.get_char(i + 1) == 'N' && line.get_char(i + 2)
        == 'V' && line.get_char(i + 3) == '{' {
        match find_char(line, '}', i + 4) {
            Some(m) => {
                match try_opval(line, m + 1) {
                    Some((op, v, e)) => {
                        let key = RuleKey::Env(substr_string(line, i + 4, m));
                        return Some((Token { key, op, val: v }, e));
                    },
                    None => {
                        return None;
                    },
                }
            },
            None => {
                return None;
            },
        }
    }
    if n - i >= 5 && line.get_char(i) == 'A' && line.get_char(i + 1) == 'T' && line.get_char(i + 2)
        == 'T' && line.get_char(i + 3) == 'R' && line.get_char(i + 4) == '{' {
        match find_char(line, '}', i + 5) {
            Some(m) => {
                match try_opval(line, m + 1) {
                    Some((op, v, e)) => {
                        let key = RuleKey::Attr(substr_string(line, i + 5, m));
                        return Some((Token { key, op, val: v }, e));
                    },
                    None => {
                        return None;
                    },
                }
            },
            None => {
                return None;
            },
        }
    }
    None
}

/// Scan a rule line into its `KEY OP "VALUE"` terms, left to right.
pub fn scan_tokens(line: &str) -> (r: Vec<Token>)
    ensures
        r.deep_view() == scan_spec(line@, 0),
{
    let n = line.unicode_len();
    let mut toks: Vec<Token> = Vec::new();
    let mut i: usize = 0;
    proof {
        assert(toks.deep_view() =~= Seq::<TokenV>::empty());
    }
    while i < n
        invariant
            0 <= i <= n,
            n == line@.len(),
            toks.deep_view() + scan_spec(line@, i as int) == scan_spec(line@, 0),
        decreases n - i,
    {
        let ghost before = toks.deep_view();
        match try_term(line, i) {
            Some((tok, e)) => {
                toks.push(tok);
                proof {
                    assert(toks.deep_view() =~= before.push(tok@));
                    assert(before.push(tok@) + scan_spec(line@, e as int) =~= before + (seq![tok@]
                        + scan_spec(line@, e as int)));
                }
                i = e;
            },
            None => {
                i = i + 1;
            },
        }
    }
    toks
}

/// Append a command under an action name: onto the first entry with that
/// name, or as a new entry at the end.
pub open spec fn run_append(
    run: Seq<(Seq<char>, Seq<Seq<char>>)>,
    k: Seq<char>,
    v: Seq<char>,
) -> Seq<(Seq<char>, Seq<Seq<char>>)>
    decreases run.len(),
{
    if run.len() == 0 {
        seq![(k, seq![v])]
    } else if run[0].0 == k {
        seq![(run[0].0, run[0].1.push(v))] + run.skip(1)
    } else {
        seq![run[0]] + run_append(run.skip(1), k, v)
    }
}

/// What one scanned term does to a rule under construction.  `RUN+=` files
/// its command under the action predicate already declared on the line,
/// and is dropped when none is; unrecognised key/operator pairs change
/// nothing.
pub open spec fn apply_token(r: RuleV, t: TokenV) -> RuleV {
    match t.key {
        KeyV::Env(k) => if t.op == Op::OpMatch {
            RuleV { env_vars: r.env_vars.push((k, t.val)), ..r }
        } else {
            r
        },
        KeyV::Attr(k) => if t.op == Op::OpMatch {
            RuleV { attr: r.attr.push((k, t.val)), ..r }
        } else {
            r
        },
        KeyV::Plain(k) => if k == "ACTION"@ && t.op == Op::OpMatch {
            RuleV { action: Option::Some(t.val), ..r }
        } else if k == "KERNEL"@ && t.op == Op::OpMatch {
            RuleV { kernel: Option::Some(t.val), ..r }
        } else if k == "SUBSYSTEM"@ && t.op == Op::OpMatch {
            RuleV { subsystem: Option::Some(t.val), ..r }
        } else if k == "DRIVER"@ && t.op == Op::OpMatch {
            RuleV { driver: Option::Some(t.val), ..r }
        } else if k == "DEVPATH"@ && t.op == Op::OpMatch {
            RuleV { devpath: Option::Some(t.val), ..r }
        } else if k == "TAG"@ && t.op == Op::OpMatch {
            RuleV { tag: Option::Some(t.val), ..r }
        } else if k == "NAME"@ && t.op == Op::OpMatch {
            RuleV { name: Option::Some(t.val), ..r }
        } else if k == "SYMLINK"@ && t.op == Op::OpAdd {
            RuleV { symlink: r.symlink.push(t.val), ..r }
        } else if k == "OWNER"@ && t.op == Op::OpAssign {
            RuleV { owner: Option::Some(t.val), ..r }
        } else if k == "GROUP"@ && t.op == Op::OpAssign {
            RuleV { group: Option::Some(t.val), ..r }
        } else if k == "MODE"@ && t.op == Op::OpAssign {
            RuleV { mode: Option::Some(t.val), ..r }
        } else if k == "RUN"@ && t.op == Op::OpAdd {
            match r.action {
                Option::Some(a) => RuleV { run: run_append(r.run, a, t.val), ..r },
                Option::None => r,
            }
        } else if k == "PROGRAM"@ && t.op == Op::OpMatch {
            RuleV { program: Option::Some(t.val), ..r }
        } else if k == "LABEL"@ && t.op == Op::OpAssign {
            RuleV { label: Option::Some(t.val), ..r }
        } else if k == "GOTO"@ && t.op == Op::OpAssign {
            RuleV { goto: Option::Some(t.val), ..r }
        } else if k == "OPTIONS"@ && t.op == Op::OpAdd {
            if t.val == "ignore_device"@ {
                RuleV { ignore_device: true, ..r }
            } else if t.val == "last_rule"@ {
                RuleV { last_rule: true, ..r }
            } else {
                r
            }
        } else {
            r
        },
    }
}

/// The rule a whole term sequence builds, left to right from the empty
/// rule.
pub open spec fn rule_from_tokens(ts: Seq<TokenV>) -> RuleV
    decreases ts.len(),
{
    if ts.len() == 0 {
        empty_rule()
    } else {
        apply_token(rule_from_tokens(ts.drop_last()), ts.last())
    }
}

/// When the first entry with name `k` sits at `i`, `run_append` extends it
/// in place.
proof fn lemma_run_append_at(
    run: Seq<(Seq<char>, Seq<Seq<char>>)>,
    k: Seq<char>,
    v: Seq<char>,
    i: int,
)
    requires
        0 <= i < run.len(),
        run[i].0 == k,
        forall|j: int| 0 <= j < i ==> (#[trigger] run[j]).0 != k,
    ensures
        run_append(run, k, v) == run.update(i, (run[i].0, run[i].1.push(v))),
    decreases i,
{
    if i == 0 {
        assert(seq![(run[0].0, run[0].1.push(v))] + run.skip(1) =~= run.update(
            0,
            (run[0].0, run[0].1.push(v)),
        ));
    } else {
        assert(run.skip(1)[i - 1].0 == k);
        assert(forall|j: int| 0 <= j < i - 1 ==> (#[trigger] run.skip(1)[j]).0 != k);
        lemma_run_append_at(run.skip(1), k, v, i - 1);
        assert(run.skip(1)[i - 1] == run[i]);
        assert(seq![run[0]] + run.skip(1).update(i - 1, (run[i].0, run[i].1.push(v))) =~= run
            .update(i, (run[i].0, run[i].1.push(v))));
    }
}

/// When no entry has name `k`, `run_append` appends a fresh one.
proof fn lemma_run_append_absent(
    run: Seq<(Seq<char>, Seq<Seq<char>>)>,
    k: Seq<char>,
    v: Seq<char>,
)
    requires
        forall|j: int| 0 <= j < run.len() ==> (#[trigger] run[j]).0 != k,
    ensures
        run_append(run, k, v) == run.push((k, seq![v])),
    decreases run.len(),
{
    if run.len() == 0 {
        assert(run_append(run, k, v) =~= run.push((k, seq![v])));
    } else {
        assert(forall|j: int| 0 <= j < run.skip(1).len() ==> (#[trigger] run.skip(1)[j]).0 != k);
        lemma_run_append_absent(run.skip(1), k, v);
        assert(seq![run[0]] + run.skip(1).push((k, seq![v])) =~= run.push((k, seq![v])));
    }
}

/// Append command `v` under action name `k` in the run list.
fn run_push(run: &mut Vec<(String, Vec<String>)>, k: String, v: String)
    ensures
        final(run).deep_view() == run_append(old(run).deep_view(), k@, v@),
{
    let n = run.len();
    let mut i: usize = 0;
    while i < n
        invariant
            0 <= i <= n,
            n == run.len(),
            run.deep_view().len() == n,
            *run == *old(run),
            forall|j: int| 0 <= j < i ==> (#[trigger] run.deep_view()[j]).0 != k@,
        decreases n - i,
    {
        proof {
            assert(run.deep_view()[i as int] == (run@[i as int].0@, run@[i as int].1.deep_view()));
        }
        if str_eq(run[i].0.as_str(), k.as_str()) {
            let ghost before = run.deep_view();
            let ghost before_vec = run@;
            let mut entry = run.remove(i);
            entry.1.push(v);
            run.insert(i, entry);
            proof {
                lemma_run_append_at(before, k@, v@, i as int);
                assert(run@ =~= before_vec.update(i as int, entry));
                assert(entry.1.deep_view() =~= before[i as int].1.push(v@));
                assert forall|m: int| 0 <= m < run.deep_view().len() implies run.deep_view()[m]
                    == before.update(
                    i as int,
                    (before[i as int].0, before[i as int].1.push(v@)),
                )[m] by {
                    assert(run.deep_view()[m] == run@[m].deep_view());
                    if m != i {
                        assert(run@[m] == before_vec[m]);
                    }
                }
                assert(run.deep_view() =~= before.update(
                    i as int,
                    (before[i as int].0, before[i as int].1.push(v@)),
                ));
            }
            return ;
        }
        i = i + 1;
    }
    let mut cmds: Vec<String> = Vec::new();
    cmds.push(v);
    let ghost vv = cmds.deep_view();
    run.push((k, cmds));
    proof {
        assert(vv =~= seq![v@]);
        lemma_run_append_absent(old(run).deep_view(), k@, v@);
        assert(run.deep_view() =~= old(run).deep_view().push((k@, seq![v@])));
    }
}

/// Apply one scanned term to the rule under construction.
fn apply_token_to(rule: &mut Rule, t: Token)
    ensures
        final(rule)@ == apply_token(old(rule)@, t@),
{
    match t.key {
        RuleKey::Env(k) => {
            if t.op == Op::OpMatch {
                rule.env_vars.push((k, t.val));
                proof {
                    assert(rule.env_vars.deep_view() =~= old(rule).env_vars.deep_view().push(
                        (k@, t.val@),
                    ));
                }
            }
        },
        RuleKey::Attr(k) => {
            if t.op == Op::OpMatch {
                rule.attr.push((k, t.val));
                proof {
                    assert(rule.attr.deep_view() =~= old(rule).attr.deep_view().push(
                        (k@, t.val@),
                    ));
                }
            }
        },
        RuleKey::Plain(k) => {
            if str_eq(k.as_str(), "ACTION") && t.op == Op::OpMatch {
                rule.action = Some(t.val);
            } else if str_eq(k.as_str(), "KERNEL") && t.op == Op::OpMatch {
                rule.kernel = Some(t.val);
            } else if str_eq(k.as_str(), "SUBSYSTEM") && t.op == Op::OpMatch {
                rule.subsystem = Some(t.val);
            } else if str_eq(k.as_str(), "DRIVER") && t.op == Op::OpMatch {
                rule.driver = Some(t.val);
            } else if str_eq(k.as_str(), "DEVPATH") && t.op == Op::OpMatch {
                rule.devpath = Some(t.val);
            } else if str_eq(k.as_str(), "TAG") && t.op == Op::OpMatch {
                rule.tag = Some(t.val);
            } else if str_eq(k.as_str(), "NAME") && t.op == Op::OpMatch {
                rule.name = Some(t.val);
            } else if str_eq(k.as_str(), "SYMLINK") && t.op == Op::OpAdd {
                rule.symlink.push(t.val);
                proof {
                    assert(rule.symlink.deep_view() =~= old(rule).symlink.deep_view().push(
                        t.val@,
                    ));
                }
            } else if str_eq(k.as_str(), "OWNER") && t.op == Op::OpAssign {
                rule.owner = Some(t.val);
            } else if str_eq(k.as_str(), "GROUP") && t.op == Op::OpAssign {
                rule.group = Some(t.val);
            } else if str_eq(k.as_str(), "MODE") && t.op == Op::OpAssign {
                rule.mode = Some(t.val);
            } else if str_eq(k.as_str(), "RUN") && t.op == Op::OpAdd {
                let act = match &rule.action {
                    Some(a) => Some(a.clone()),
                    None => None,
                };
                match act {
                    Some(a) => {
                        run_push(&mut rule.run, a, t.val);
                    },
                    None => {},
                }
            } else if str_eq(k.as_str(), "PROGRAM") && t.op == Op::OpMatch {
                rule.program = Some(t.val);
            } else if str_eq(k.as_str(), "LABEL") && t.op == Op::OpAssign {
                rule.label = Some(t.val);
            } else if str_eq(k.as_str(), "GOTO") && t.op == Op::OpAssign {
                rule.goto = Some(t.val);
            } else if str_eq(k.as_str(), "OPTIONS") && t.op == Op::OpAdd {
                if str_eq(t.val.as_str(), "ignore_device") {
                    rule.ignore_device = true;
                } else if str_eq(t.val.as_str(), "last_rule") {
                    rule.last_rule = true;
                }
            }
        },
    }
}

/// Parse one rule line: scan its terms and fold them into a rule.
pub fn parse_rule_line(line: &str) -> (r: Rule)
    ensures
        r@ == rule_from_tokens(scan_spec(line@, 0)),
{
    let mut toks = scan_tokens(line);
    let ghost all = toks.deep_view();
    let mut rule = Rule::new();
    let total = toks.len();
    let mut done: usize = 0;
    proof {
        assert(all.take(0) =~= Seq::<TokenV>::empty());
    }
    while toks.len() > 0
        invariant
            all.len() == total,
            done + toks.len() == all.len(),
            toks.deep_view() == all.skip(done as int),
            rule@ == rule_from_tokens(all.take(done as int)),
        decreases toks.len(),
    {
        let ghost pre = toks.deep_view();
        let ghost pre_vec = toks@;
        let t = toks.remove(0);
        proof {
            assert(pre[0] == pre_vec[0].deep_view());
            assert(t@ == all[done as int]);
            assert forall|m: int| 0 <= m < toks.deep_view().len() implies toks.deep_view()[m]
                == all.skip(done as int + 1)[m] by {
                assert(toks.deep_view()[m] == toks@[m].deep_view());
                assert(toks@[m] == pre_vec[m + 1]);
                assert(pre[m + 1] == pre_vec[m + 1].deep_view());
                assert(pre[m + 1] == all.skip(done as int)[m + 1]);
            }
            assert(toks.deep_view() =~= all.skip(done as int + 1));
            assert(all.take(done as int + 1).drop_last() =~= all.take(done as int));
            assert(all.take(done as int + 1).last() == all[done as int]);
        }
        apply_token_to(&mut rule, t);
        done = done + 1;
    }
    proof {
        assert(all.take(done as int) =~= all);
    }
    rule
}

/// One rule file, already read: its file name and its lines.
#[derive(Debug)]
pub struct RuleFile {
    pub name: String,
    pub lines: Vec<String>,
}

/// The mathematical shadow of `RuleFile`.
pub struct RuleFileV {
    pub name: Seq<char>,
    pub lines: Seq<Seq<char>>,
}

impl View for RuleFile {
    type V = RuleFileV;

    open spec fn view(&self) -> RuleFileV {
        RuleFileV { name: self.name@, lines: self.lines.deep_view() }
    }
}

impl DeepView for RuleFile {
    type V = RuleFileV;

    open spec fn deep_view(&self) -> RuleFileV {
        self@
    }
}

/// The end of the run of decimal digits that starts at `i`.
pub open spec fn digit_run_end(s: Seq<char>, i: int) -> int
    decreases s.len() - i
        when 0 <= i <= s.len()
{
    if i >= s.len() {
        i
    } else if is_digit(s[i]) {
        digit_run_end(s, i + 1)
    } else {
        i
    }
}

proof fn lemma_digit_run_end(s: Seq<char>, i: int)
    requires
        0 <= i <= s.len(),
    ensures
        i <= digit_run_end(s, i) <= s.len(),
        forall|m: int| i <= m < digit_run_end(s, i) ==> is_digit(#[trigger] s[m]),
        digit_run_end(s, i) < s.len() ==> !is_digit(s[digit_run_end(s, i)]),
        i < s.len() && is_digit(s[i]) ==> digit_run_end(s, i) > i,
    decreases s.len() - i,
{
    if i < s.len() && is_digit(s[i]) {
        lemma_digit_run_end(s, i + 1);
    }
}

/// The digit run is determined by its endpoints.
proof fn lemma_digit_run_end_is(s: Seq<char>, i: int, j: int)
    requires
        0 <= i <= j <= s.len(),
        forall|m: int| i <= m < j ==> is_digit(#[trigger] s[m]),
        j < s.len() ==> !is_digit(s[j]),
    ensures
        digit_run_end(s, i) == j,
    decreases j - i,
{
    if i < j {
        lemma_digit_run_end_is(s, i + 1, j);
    }
}

/// The ordering key of a rule-file name at or after `i`: the value of the
/// first run of decimal digits that fits a `u32`; `0` when there is none.
pub open spec fn file_key_from(s: Seq<char>, i: int) -> u32
    decreases s.len() - i
        when 0 <= i <= s.len()
        via file_key_from_dec
{
    if i >= s.len() {
        0
    } else if !is_digit(s[i]) {
        file_key_from(s, i + 1)
    } else {
        let j = digit_run_end(s, i);
        if digits_val(s.subrange(i, j)) <= u32::MAX as nat {
            digits_val(s.subrange(i, j)) as u32
        } else {
            file_key_from(s, j)
        }
    }
}

#[via_fn]
proof fn file_key_from_dec(s: Seq<char>, i: int) {
    if 0 <= i && i < s.len() && is_digit(s[i]) {
        lemma_digit_run_end(s, i);
    }
}

/// The ordering key of a rule-file name.
pub open spec fn file_key(name: Seq<char>) -> u32 {
    file_key_from(name, 0)
}

/// Compute the ordering key of a rule-file name.
pub fn file_sort_key(name: &str) -> (r: u32)
    ensures
        r == file_key(name@),
{
    let n = name.unicode_len();
    let mut i: usize = 0;
    while i < n
        invariant
            0 <= i <= n,
            n == name@.len(),
            file_key(name@) == file_key_from(name@, i as int),
        decreases n - i,
    {
        if !is_digit_exec(name.get_char(i)) {
            i = i + 1;
        } else {
            let mut j: usize = i + 1;
            while j < n && is_digit_exec(name.get_char(j))
                invariant
                    i < j <= n,
                    n == name@.len(),
                    forall|m: int| i <= m < j ==> is_digit(#[trigger] name@[m]),
                decreases n - j,
            {
                j = j + 1;
            }
            proof {
                lemma_digit_run_end_is(name@, i as int, j as int);
            }
            let sub = substr_string(name, i, j);
            match parse_u32(sub.as_str()) {
                Some(v) => {
                    return v;
                },
                None => {
                    proof {
                        assert(sub@[0] == name@[i as int]);
                        assert(parse_uint_spec(sub@) == Option::Some(digits_val(sub@)));
                    }
                    i = j;
                },
            }
        }
    }
    0
}

/// Insert file `f` into `fs`, which is ascending by key, keeping it
/// ascending; `f` goes after any file whose key is not above its own.
pub open spec fn insert_file(f: RuleFileV, fs: Seq<RuleFileV>) -> Seq<RuleFileV>
    decreases fs.len(),
{
    if fs.len() == 0 {
        seq![f]
    } else if file_key(fs.last().name) <= file_key(f.name) {
        fs.push(f)
    } else {
        insert_file(f, fs.drop_last()).push(fs.last())
    }
}

/// The files of one directory rearranged into ascending numeric-prefix
/// order; files with equal keys keep their directory order.
pub open spec fn sort_files_spec(fs: Seq<RuleFileV>) -> Seq<RuleFileV>
    decreases fs.len(),
{
    if fs.len() == 0 {
        Seq::empty()
    } else {
        insert_file(fs.last(), sort_files_spec(fs.drop_last()))
    }
}

/// Where the scan in `parse_rules_file` stops is where `insert_file`
/// places the new file.
proof fn lemma_insert_file_pos(f: RuleFileV, fs: Seq<RuleFileV>, p: int)
    requires
        0 <= p <= fs.len(),
        forall|m: int|
            p <= m < fs.len() ==> !(file_key((#[trigger] fs[m]).name) <= file_key(f.name)),
        p > 0 ==> file_key(fs[p - 1].name) <= file_key(f.name),
    ensures
        insert_file(f, fs) == fs.take(p) + seq![f] + fs.skip(p),
    decreases fs.len(),
{
    if fs.len() == 0 {
        assert(insert_file(f, fs) =~= fs.take(p) + seq![f] + fs.skip(p));
    } else if file_key(fs.last().name) <= file_key(f.name) {
        assert(p == fs.len());
        assert(fs.push(f) =~= fs.take(p) + seq![f] + fs.skip(p));
    } else {
        assert(p < fs.len());
        lemma_insert_file_pos(f, fs.drop_last(), p);
        assert((fs.drop_last().take(p) + seq![f] + fs.drop_last().skip(p)).push(fs.last()) =~= (
        fs.take(p) + seq![f] + fs.skip(p)));
    }
}

/// `insert_file` holds exactly the given files plus the new one.
proof fn lemma_insert_file_contains(f: RuleFileV, fs: Seq<RuleFileV>)
    ensures
        forall|x: RuleFileV| #[trigger] insert_file(f, fs).contains(x) <==> (fs.contains(x) || x
            == f),
        insert_file(f, fs).len() == fs.len() + 1,
    decreases fs.len(),
{
    if fs.len() == 0 {
        assert forall|x: RuleFileV| #[trigger]
            insert_file(f, fs).contains(x) <==> (fs.contains(x) || x == f) by {
            lemma_file_push_contains(Seq::<RuleFileV>::empty(), f, x);
            assert(insert_file(f, fs) =~= Seq::<RuleFileV>::empty().push(f));
        }
    } else if file_key(fs.last().name) <= file_key(f.name) {
        assert forall|x: RuleFileV| #[trigger]
            insert_file(f, fs).contains(x) <==> (fs.contains(x) || x == f) by {
            lemma_file_push_contains(fs, f, x);
        }
    } else {
        lemma_insert_file_contains(f, fs.drop_last());
        assert forall|x: RuleFileV| #[trigger]
            insert_file(f, fs).contains(x) <==> (fs.contains(x) || x == f) by {
            lemma_file_push_contains(insert_file(f, fs.drop_last()), fs.last(), x);
            lemma_file_push_contains(fs.drop_last(), fs.last(), x);
            assert(fs =~= fs.drop_last().push(fs.last()));
        }
    }
}

/// Membership in a pushed file sequence.
proof fn lemma_file_push_contains(s: Seq<RuleFileV>, a: RuleFileV, x: RuleFileV)
    ensures
        s.push(a).contains(x) <==> (s.contains(x) || x == a),
{
    if s.push(a).contains(x) {
        let i = choose|i: int| 0 <= i < s.push(a).len() && s.push(a)[i] == x;
        if i < s.len() {
            assert(s[i] == x);
        }
    }
    if s.contains(x) {
        let i = choose|i: int| 0 <= i < s.len() && s[i] == x;
        assert(s.push(a)[i] == x);
    }
    if x == a {
        assert(s.push(a)[s.len() as int] == x);
    }
}

/// Ascending numeric-prefix order over a whole file sequence.
pub open spec fn files_ordered(fs: Seq<RuleFileV>) -> bool {
    forall|i: int, j: int|
        0 <= i < j < fs.len() ==> file_key((#[trigger] fs[i]).name) <= file_key(
            (#[trigger] fs[j]).name,
        )
}

/// `insert_file` keeps the sequence ascending by key.
proof fn lemma_insert_file_sorted(f: RuleFileV, fs: Seq<RuleFileV>)
    requires
        files_ordered(fs),
    ensures
        files_ordered(insert_file(f, fs)),
    decreases fs.len(),
{
    if fs.len() == 0 {
    } else if file_key(fs.last().name) <= file_key(f.name) {
        let r = fs.push(f);
        assert forall|i: int, j: int| 0 <= i < j < r.len() implies file_key(
            (#[trigger] r[i]).name,
        ) <= file_key((#[trigger] r[j]).name) by {
            if j < fs.len() {
                assert(r[i] == fs[i] && r[j] == fs[j]);
            } else {
                assert(r[j] == f && r[i] == fs[i]);
                if i < fs.len() - 1 {
                    assert(file_key(fs[i].name) <= file_key(fs[fs.len() - 1].name));
                }
            }
        }
    } else {
        let dl = fs.drop_last();
        assert(files_ordered(dl)) by {
            assert(forall|i: int| 0 <= i < dl.len() ==> dl[i] == fs[i]);
        }
        lemma_insert_file_sorted(f, dl);
        lemma_insert_file_contains(f, dl);
        let r0 = insert_file(f, dl);
        let r = r0.push(fs.last());
        assert forall|i: int, j: int| 0 <= i < j < r.len() implies file_key(
            (#[trigger] r[i]).name,
        ) <= file_key((#[trigger] r[j]).name) by {
            if j < r0.len() {
                assert(r[i] == r0[i] && r[j] == r0[j]);
            } else {
                assert(r[j] == fs.last());
                assert(r[i] == r0[i]);
                assert(r0.contains(r0[i]));
                if dl.contains(r0[i]) {
                    let m = choose|m: int| 0 <= m < dl.len() && dl[m] == r0[i];
                    assert(dl[m] == fs[m]);
                    assert(file_key(fs[m].name) <= file_key(fs[fs.len() - 1].name));
                } else {
                    assert(r0[i] == f);
                }
            }
        }
    }
}

/// Law: the parsed file order is ascending in the numeric prefix of the
/// file names.
pub proof fn lemma_sort_files_ordered(fs: Seq<RuleFileV>)
    ensures
        files_ordered(sort_files_spec(fs)),
    decreases fs.len(),
{
    if fs.len() > 0 {
        lemma_sort_files_ordered(fs.drop_last());
        lemma_insert_file_sorted(fs.last(), sort_files_spec(fs.drop_last()));
    }
}

/// The files whose key is `k`, in order.
pub open spec fn key_pred(k: u32) -> spec_fn(RuleFileV) -> bool {
    |g: RuleFileV| file_key(g.name) == k
}

/// Inserting a file leaves every other key's subsequence alone and puts
/// the new file at the end of its own key's subsequence.
proof fn lemma_insert_file_filter(f: RuleFileV, fs: Seq<RuleFileV>, k: u32)
    ensures
        insert_file(f, fs).filter(key_pred(k)) == if file_key(f.name) == k {
            fs.filter(key_pred(k)).push(f)
        } else {
            fs.filter(key_pred(k))
        },
    decreases fs.len(),
{
    reveal(Seq::filter);
    if fs.len() == 0 {
        assert(insert_file(f, fs) == seq![f]);
        assert(seq![f].drop_last() =~= Seq::<RuleFileV>::empty());
        assert(Seq::<RuleFileV>::empty().filter(key_pred(k)) =~= Seq::<RuleFileV>::empty());
        assert(fs.filter(key_pred(k)) =~= Seq::<RuleFileV>::empty());
    } else if file_key(fs.last().name) <= file_key(f.name) {
        let r = fs.push(f);
        assert(r.drop_last() =~= fs);
        assert(r.last() == f);
    } else {
        let dl = fs.drop_last();
        let last = fs.last();
        lemma_insert_file_filter(f, dl, k);
        let r0 = insert_file(f, dl);
        let r = r0.push(last);
        assert(r.drop_last() =~= r0);
        assert(r.last() == last);
        assert(fs.drop_last() =~= dl);
        if file_key(f.name) == k {
            assert(file_key(last.name) != k);
            assert(r.filter(key_pred(k)) == r0.filter(key_pred(k)));
            assert(fs.filter(key_pred(k)) == dl.filter(key_pred(k)));
        } else {
            if file_key(last.name) == k {
                assert(r.filter(key_pred(k)) == r0.filter(key_pred(k)).push(last));
                assert(fs.filter(key_pred(k)) == dl.filter(key_pred(k)).push(last));
            } else {
                assert(r.filter(key_pred(k)) == r0.filter(key_pred(k)));
                assert(fs.filter(key_pred(k)) == dl.filter(key_pred(k)));
            }
        }
    }
}

/// Law: sorting the files is stable — for every key value, the files that
/// share that numeric prefix keep their directory order.
pub proof fn lemma_sort_files_stable(fs: Seq<RuleFileV>, k: u32)
    ensures
        sort_files_spec(fs).filter(key_pred(k)) == fs.filter(key_pred(k)),
    decreases fs.len(),
{
    reveal(Seq::filter);
    if fs.len() > 0 {
        let dl = fs.drop_last();
        let last = fs.last();
        lemma_sort_files_stable(dl, k);
        lemma_insert_file_filter(last, sort_files_spec(dl), k);
        assert(fs.drop_last() =~= dl);
        if file_key(last.name) == k {
            assert(fs.filter(key_pred(k)) == dl.filter(key_pred(k)).push(last));
        } else {
            assert(fs.filter(key_pred(k)) == dl.filter(key_pred(k)));
        }
    }
}

/// The rules of one file's lines, in line order: each line that is not
/// blank and not a comment yields one rule, parsed from its trimmed text.
pub open spec fn rules_of_lines(lines: Seq<Seq<char>>) -> Seq<RuleV>
    decreases lines.len(),
{
    if lines.len() == 0 {
        Seq::empty()
    } else {
        let rest = rules_of_lines(lines.drop_last());
        let t = trim_spec(lines.last());
        if t.len() > 0 && t[0] != '#' {
            rest.push(rule_from_tokens(scan_spec(t, 0)))
        } else {
            rest
        }
    }
}

/// The rules of a file sequence: each file's rules in line order, files in
/// the order given.
pub open spec fn rules_of_files(fs: Seq<RuleFileV>) -> Seq<RuleV>
    decreases fs.len(),
{
    if fs.len() == 0 {
        Seq::empty()
    } else {
        rules_of_files(fs.drop_last()) + rules_of_lines(fs.last().lines)
    }
}

/// Parse one directory of rule files: order the files by ascending numeric
/// prefix of their names — equal prefixes keep their listed order — and
/// parse each file's lines in order, one rule per non-blank, non-comment
/// line.
pub fn parse_rules_file(files: Vec<RuleFile>) -> (r: Vec<Rule>)
    ensures
        r.deep_view() == rules_of_files(sort_files_spec(files.deep_view())),
{
    let ghost allf = files.deep_view();
    let mut files = files;
    let mut sorted: Vec<RuleFile> = Vec::new();
    let total = files.len();
    let mut done: usize = 0;
    proof {
        assert(allf.take(0) =~= Seq::<RuleFileV>::empty());
        assert(sorted.deep_view() =~= Seq::<RuleFileV>::empty());
        assert(allf.skip(0) =~= allf);
    }
    while files.len() > 0
        invariant
            allf.len() == total,
            done + files.len() == allf.len(),
            files.deep_view() == allf.skip(done as int),
            sorted.deep_view() == sort_files_spec(allf.take(done as int)),
            sorted.deep_view().len() == sorted.len(),
        decreases files.len(),
    {
        let ghost pre = files.deep_view();
        let ghost pre_vec = files@;
        let f = files.remove(0);
        proof {
            assert(pre[0] == pre_vec[0].deep_view());
            assert(f@ == allf[done as int]);
            assert forall|m: int| 0 <= m < files.deep_view().len() implies files.deep_view()[m]
                == allf.skip(done as int + 1)[m] by {
                assert(files.deep_view()[m] == files@[m].deep_view());
                assert(files@[m] == pre_vec[m + 1]);
                assert(pre[m + 1] == pre_vec[m + 1].deep_view());
                assert(pre[m + 1] == allf.skip(done as int)[m + 1]);
            }
            assert(files.deep_view() =~= allf.skip(done as int + 1));
        }
        let fk = file_sort_key(f.name.as_str());
        let mut j: usize = sorted.len();
        while j > 0 && !(file_sort_key(sorted[j - 1].name.as_str()) <= fk)
            invariant
                0 <= j <= sorted.len(),
                sorted.deep_view().len() == sorted.len(),
                fk == file_key(f@.name),
                forall|m: int|
                    j <= m < sorted.len() ==> !(file_key(
                        (#[trigger] sorted.deep_view()[m]).name,
                    ) <= fk),
            decreases j,
        {
            proof {
                assert(sorted.deep_view()[j - 1] == sorted@[j - 1].deep_view());
            }
            j = j - 1;
        }
        proof {
            assert(j > 0 ==> sorted.deep_view()[j - 1] == sorted@[j - 1].deep_view());
            lemma_insert_file_pos(f@, sorted.deep_view(), j as int);
            assert(allf.take(done as int + 1).drop_last() =~= allf.take(done as int));
            assert(allf.take(done as int + 1).last() == allf[done as int]);
        }
        let ghost before = sorted.deep_view();
        let ghost before_vec = sorted@;
        sorted.insert(j, f);
        proof {
            assert(sorted@ =~= before_vec.insert(j as int, f));
            assert forall|m: int| 0 <= m < sorted.deep_view().len() implies sorted.deep_view()[m]
                == (before.take(j as int) + seq![f@] + before.skip(j as int))[m] by {
                assert(sorted.deep_view()[m] == sorted@[m].deep_view());
                if m < j {
                    assert(sorted@[m] == before_vec[m]);
                    assert(before[m] == before_vec[m].deep_view());
                } else if m > j {
                    assert(sorted@[m] == before_vec[m - 1]);
                    assert(before[m - 1] == before_vec[m - 1].deep_view());
                }
            }
            assert(sorted.deep_view() =~= before.take(j as int) + seq![f@] + before.skip(
                j as int,
            ));
        }
        done = done + 1;
    }
    proof {
        assert(allf.take(done as int) =~= allf);
    }
    let ghost sortedv = sorted.deep_view();
    let mut sorted = sorted;
    let mut rules: Vec<Rule> = Vec::new();
    let ftotal = sorted.len();
    let mut fdone: usize = 0;
    proof {
        assert(sortedv.take(0) =~= Seq::<RuleFileV>::empty());
        assert(rules.deep_view() =~= Seq::<RuleV>::empty());
        assert(sortedv.skip(0) =~= sortedv);
    }
    while sorted.len() > 0
        invariant
            sortedv.len() == ftotal,
            fdone + sorted.len() == sortedv.len(),
            sorted.deep_view() == sortedv.skip(fdone as int),
            rules.deep_view() == rules_of_files(sortedv.take(fdone as int)),
        decreases sorted.len(),
    {
        let ghost pre = sorted.deep_view();
        let ghost pre_vec = sorted@;
        let f = sorted.remove(0);
        proof {
            assert(pre[0] == pre_vec[0].deep_view());
            assert(f@ == sortedv[fdone as int]);
            assert forall|m: int| 0 <= m < sorted.deep_view().len() implies sorted.deep_view()[m]
                == sortedv.skip(fdone as int + 1)[m] by {
                assert(sorted.deep_view()[m] == sorted@[m].deep_view());
                assert(sorted@[m] == pre_vec[m + 1]);
                assert(pre[m + 1] == pre_vec[m + 1].deep_view());
                assert(pre[m + 1] == sortedv.skip(fdone as int)[m + 1]);
            }
            assert(sorted.deep_view() =~= sortedv.skip(fdone as int + 1));
        }
        let mut lines = f.lines;
        let ghost linesv = lines.deep_view();
        let ltotal = lines.len();
        let mut ldone: usize = 0;
        proof {
            assert(linesv.take(0) =~= Seq::<Seq<char>>::empty());
        }
        while lines.len() > 0
            invariant
                linesv.len() == ltotal,
                ldone + lines.len() == linesv.len(),
                lines.deep_view() == linesv.skip(ldone as int),
                rules.deep_view() == rules_of_files(sortedv.take(fdone as int)) + rules_of_lines(
                    linesv.take(ldone as int),
                ),
            decreases lines.len(),
        {
            let ghost lpre = lines.deep_view();
            let ghost lpre_vec = lines@;
            let line = lines.remove(0);
            proof {
                assert(lpre[0] == lpre_vec[0].deep_view());
                assert(line@ == linesv[ldone as int]);
                assert forall|m: int| 0 <= m < lines.deep_view().len() implies lines.deep_view()[m]
                    == linesv.skip(ldone as int + 1)[m] by {
                    assert(lines.deep_view()[m] == lines@[m].deep_view());
                    assert(lines@[m] == lpre_vec[m + 1]);
                    assert(lpre[m + 1] == lpre_vec[m + 1].deep_view());
                    assert(lpre[m + 1] == linesv.skip(ldone as int)[m + 1]);
                }
                assert(lines.deep_view() =~= linesv.skip(ldone as int + 1));
                assert(linesv.take(ldone as int + 1).drop_last() =~= linesv.take(ldone as int));
                assert(linesv.take(ldone as int + 1).last() == linesv[ldone as int]);
            }
            let t = trim(line.as_str());
            if t.as_str().unicode_len() > 0 && t.as_str().get_char(0) != '#' {
                let ghost rbefore = rules.deep_view();
                let rule = parse_rule_line(t.as_str());
                rules.push(rule);
                proof {
                    assert(rules.deep_view() =~= rbefore.push(rule@));
                }
            }
            ldone = ldone + 1;
        }
        proof {
            assert(linesv.take(ldone as int) =~= linesv);
            assert(sortedv.take(fdone as int + 1).drop_last() =~= sortedv.take(fdone as int));
            assert(sortedv.take(fdone as int + 1).last() == sortedv[fdone as int]);
        }
        fdone = fdone + 1;
    }
    proof {
        assert(sortedv.take(fdone as int) =~= sortedv);
    }
    rules
}

/// The rules of a sequence of directories, in directory order.
pub open spec fn rules_of_dirs(ds: Seq<Seq<RuleFileV>>) -> Seq<RuleV>
    decreases ds.len(),
{
    if ds.len() == 0 {
        Seq::empty()
    } else {
        rules_of_dirs(ds.drop_last()) + rules_of_files(sort_files_spec(ds.last()))
    }
}

/// Parse every configured rule directory, in the order given, keeping each
/// directory's file order by ascending numeric prefix.
pub fn load_all_rules(dirs: Vec<Vec<RuleFile>>) -> (r: Vec<Rule>)
    ensures
        r.deep_view() == rules_of_dirs(dirs.deep_view()),
{
    let ghost dirsv = dirs.deep_view();
    let mut dirs = dirs;
    let mut rules: Vec<Rule> = Vec::new();
    let total = dirs.len();
    let mut done: usize = 0;
    proof {
        assert(dirsv.take(0) =~= Seq::<Seq<RuleFileV>>::empty());
        assert(rules.deep_view() =~= Seq::<RuleV>::empty());
        assert(dirsv.skip(0) =~= dirsv);
    }
    while dirs.len() > 0
        invariant
            dirsv.len() == total,
            done + dirs.len() == dirsv.len(),
            dirs.deep_view() == dirsv.skip(done as int),
            rules.deep_view() == rules_of_dirs(dirsv.take(done as int)),
        decreases dirs.len(),
    {
        let ghost pre = dirs.deep_view();
        let ghost pre_vec = dirs@;
        let d = dirs.remove(0);
        proof {
            assert(pre[0] == pre_vec[0].deep_view());
            assert(d.deep_view() == dirsv[done as int]);
            assert forall|m: int| 0 <= m < dirs.deep_view().len() implies dirs.deep_view()[m]
                == dirsv.skip(done as int + 1)[m] by {
                assert(dirs.deep_view()[m] == dirs@[m].deep_view());
                assert(dirs@[m] == pre_vec[m + 1]);
                assert(pre[m + 1] == pre_vec[m + 1].deep_view());
                assert(pre[m + 1] == dirsv.skip(done as int)[m + 1]);
            }
            assert(dirs.deep_view() =~= dirsv.skip(done as int + 1));
            assert(dirsv.take(done as int + 1).drop_last() =~= dirsv.take(done as int));
            assert(dirsv.take(done as int + 1).last() == dirsv[done as int]);
        }
        let ghost rbefore = rules.deep_view();
        let mut part = parse_rules_file(d);
        let ghost partv = part.deep_view();
        rules.append(&mut part);
        proof {
            assert forall|m: int| 0 <= m < rules.deep_view().len() implies rules.deep_view()[m]
                == (rbefore + partv)[m] by {
                assert(rules.deep_view()[m] == rules@[m].deep_view());
            }
            assert(rules.deep_view() =~= rbefore + partv);
        }
        done = done + 1;
    }
    proof {
        assert(dirsv.take(done as int) =~= dirsv);
    }
    rules
}

} // verus!
