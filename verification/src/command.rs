//! The command-line grammar of descriptor `Exec=` strings: escape
//! normalization, whitespace tokenization with line-continuation joins, and
//! field-code stripping.

use vstd::prelude::*;

use crate::error::EntryError;
use crate::strings::{chars_to_string, str_to_chars};

verus! {

/// An executable program token together with its argument tokens.
#[derive(Debug, Clone)]
pub struct Exec {
    /// The program to run; never empty for a parsed command.
    pub cmd: String,
    /// The arguments, in order, with field-code placeholders removed.
    pub args: Vec<String>,
}

/// The mathematical shape of an [`Exec`]: the program's characters and each
/// argument's characters.
pub struct ExecView {
    /// Characters of the program token.
    pub cmd: Seq<char>,
    /// Characters of each argument token.
    pub args: Seq<Seq<char>>,
}

impl View for Exec {
    type V = ExecView;

    open spec fn view(&self) -> ExecView {
        ExecView { cmd: self.cmd@, args: self.args@.map_values(|a: String| a@) }
    }
}

/// The characters of each token in a token list.
pub open spec fn toks_view(ts: Seq<Vec<char>>) -> Seq<Seq<char>> {
    ts.map_values(|t: Vec<char>| t@)
}

/// Whitespace as the tokenizer understands it: the Unicode white-space
/// characters, matching how fields of a command string are separated.
pub open spec fn is_ws_char(c: char) -> bool {
    let u = c as u32;
    u == 0x9 || u == 0xA || u == 0xB || u == 0xC || u == 0xD || u == 0x20 || u == 0x85 || u == 0xA0
        || u == 0x1680 || (0x2000 <= u && u <= 0x200A) || u == 0x2028 || u == 0x2029 || u == 0x202F
        || u == 0x205F || u == 0x3000
}

fn is_ws(c: char) -> (r: bool)
    ensures
        r == is_ws_char(c),
{
    let u = c as u32;
    u == 0x9 || u == 0xA || u == 0xB || u == 0xC || u == 0xD || u == 0x20 || u == 0x85 || u == 0xA0
        || u == 0x1680 || (0x2000 <= u && u <= 0x200A) || u == 0x2028 || u == 0x2029 || u == 0x202F
        || u == 0x205F || u == 0x3000
}

/// The known escape artifact: every run of four backslashes collapses, left to
/// right, to a single backslash; all other characters stay.
pub open spec fn collapse_bs(s: Seq<char>) -> Seq<char>
    decreases s.len(),
{
    if s.len() >= 4 && s[0] == '\\' && s[1] == '\\' && s[2] == '\\' && s[3] == '\\' {
        seq!['\\'] + collapse_bs(s.skip(4))
    } else if s.len() == 0 {
        s
    } else {
        seq![s[0]] + collapse_bs(s.skip(1))
    }
}

fn collapse_backslashes(v: &Vec<char>) -> (out: Vec<char>)
    ensures
        out@ == collapse_bs(v@),
{
    let n = v.len();
    let mut out: Vec<char> = Vec::new();
    let mut i: usize = 0;
    proof {
        assert(v@.skip(0) =~= v@);
    }
    while i < n
        invariant
            i <= n,
            n == v@.len(),
            collapse_bs(v@) == out@ + collapse_bs(v@.skip(i as int)),
        decreases n - i,
    {
        let ghost rem = v@.skip(i as int);
        let ghost out0 = out@;
        if n - i >= 4 && v[i] == '\\' && v[i + 1] == '\\' && v[i + 2] == '\\' && v[i + 3] == '\\' {
            out.push('\\');
            proof {
                assert(rem.len() >= 4);
                assert(rem[0] == v@[i as int] && rem[1] == v@[i + 1] && rem[2] == v@[i + 2]
                    && rem[3] == v@[i + 3]);
                assert(rem.skip(4) =~= v@.skip(i + 4));
                assert(collapse_bs(rem) == seq!['\\'] + collapse_bs(v@.skip(i + 4)));
                assert(out0 + (seq!['\\'] + collapse_bs(v@.skip(i + 4))) =~= (out0.push('\\'))
                    + collapse_bs(v@.skip(i + 4)));
            }
            i = i + 4;
        } else {
            let c = v[i];
            out.push(c);
            proof {
                assert(rem.len() > 0 && rem[0] == v@[i as int]);
                assert(!(rem.len() >= 4 && rem[0] == '\\' && rem[1] == '\\' && rem[2] == '\\'
                    && rem[3] == '\\'));
                assert(rem.skip(1) =~= v@.skip(i + 1));
                assert(collapse_bs(rem) == seq![rem[0]] + collapse_bs(v@.skip(i + 1)));
                assert(out0 + (seq![c] + collapse_bs(v@.skip(i + 1))) =~= (out0.push(c))
                    + collapse_bs(v@.skip(i + 1)));
            }
            i = i + 1;
        }
    }
    proof {
        assert(v@.skip(n as int) =~= Seq::<char>::empty());
        assert(out@ + collapse_bs(Seq::<char>::empty()) =~= out@);
    }
    out
}

/// Every literal double-quote character is removed; everything else stays.
pub open spec fn strip_quotes_spec(s: Seq<char>) -> Seq<char>
    decreases s.len(),
{
    if s.len() == 0 {
        s
    } else if s[0] == '"' {
        strip_quotes_spec(s.drop_first())
    } else {
        seq![s[0]] + strip_quotes_spec(s.drop_first())
    }
}

fn strip_quotes(v: &Vec<char>) -> (out: Vec<char>)
    ensures
        out@ == strip_quotes_spec(v@),
{
    let n = v.len();
    let mut out: Vec<char> = Vec::new();
    let mut i: usize = 0;
    proof {
        assert(v@.skip(0) =~= v@);
    }
    while i < n
        invariant
            i <= n,
            n == v@.len(),
            strip_quotes_spec(v@) == out@ + strip_quotes_spec(v@.skip(i as int)),
        decreases n - i,
    {
        let ghost rem = v@.skip(i as int);
        let ghost out0 = out@;
        let c = v[i];
        proof {
            assert(rem.len() > 0 && rem[0] == v@[i as int]);
            assert(rem.drop_first() =~= v@.skip(i + 1));
        }
        if c != '"' {
            out.push(c);
            proof {
                assert(out0 + (seq![c] + strip_quotes_spec(v@.skip(i + 1))) =~= (out0.push(c))
                    + strip_quotes_spec(v@.skip(i + 1)));
            }
        }
        i = i + 1;
    }
    proof {
        assert(v@.skip(n as int) =~= Seq::<char>::empty());
        assert(out@ + strip_quotes_spec(Seq::<char>::empty()) =~= out@);
    }
    out
}

/// Splitting on runs of whitespace, carrying the token built so far: tokens
/// are the maximal whitespace-free runs, in order.
pub open spec fn split_ws_acc(s: Seq<char>, cur: Seq<char>) -> Seq<Seq<char>>
    decreases s.len(),
{
    if s.len() == 0 {
        if cur.len() == 0 {
            Seq::empty()
        } else {
            seq![cur]
        }
    } else if is_ws_char(s[0]) {
        if cur.len() == 0 {
            split_ws_acc(s.drop_first(), Seq::empty())
        } else {
            seq![cur] + split_ws_acc(s.drop_first(), Seq::empty())
        }
    } else {
        split_ws_acc(s.drop_first(), cur.push(s[0]))
    }
}

/// The whitespace-separated tokens of a character sequence.
pub open spec fn split_ws(s: Seq<char>) -> Seq<Seq<char>> {
    split_ws_acc(s, Seq::empty())
}

fn split_whitespace_chars(v: &Vec<char>) -> (out: Vec<Vec<char>>)
    ensures
        toks_view(out@) == split_ws(v@),
{
    let n = v.len();
    let mut out: Vec<Vec<char>> = Vec::new();
    let mut cur: Vec<char> = Vec::new();
    let mut i: usize = 0;
    proof {
        assert(v@.skip(0) =~= v@);
        assert(toks_view(out@) =~= Seq::<Seq<char>>::empty());
    }
    while i < n
        invariant
            i <= n,
            n == v@.len(),
            split_ws(v@) == toks_view(out@) + split_ws_acc(v@.skip(i as int), cur@),
        decreases n - i,
    {
        let ghost rem = v@.skip(i as int);
        let ghost outv = toks_view(out@);
        let ghost curv = cur@;
        let c = v[i];
        proof {
            assert(rem.len() > 0 && rem[0] == v@[i as int]);
            assert(rem.drop_first() =~= v@.skip(i + 1));
        }
        if is_ws(c) {
            if cur.len() > 0 {
                out.push(cur);
                cur = Vec::new();
                proof {
                    assert(toks_view(out@) =~= outv.push(curv));
                    assert(outv + (seq![curv] + split_ws_acc(v@.skip(i + 1), Seq::empty()))
                        =~= outv.push(curv) + split_ws_acc(v@.skip(i + 1), Seq::empty()));
                }
            } else {
                proof {
                    assert(cur@ =~= Seq::<char>::empty());
                }
            }
        } else {
            cur.push(c);
            proof {
                assert(cur@ =~= curv.push(c));
            }
        }
        i = i + 1;
    }
    proof {
        assert(v@.skip(n as int) =~= Seq::<char>::empty());
    }
    if cur.len() > 0 {
        let ghost outv = toks_view(out@);
        let ghost curv = cur@;
        out.push(cur);
        proof {
            assert(toks_view(out@) =~= outv.push(curv));
            assert(outv + seq![curv] =~= outv.push(curv));
        }
    } else {
        proof {
            assert(toks_view(out@) + Seq::<Seq<char>>::empty() =~= toks_view(out@));
        }
    }
    out
}

/// A token that ends in the two-backslash continuation marker.
pub open spec fn ends_cont(t: Seq<char>) -> bool {
    t.len() >= 2 && t[t.len() - 1] == '\\' && t[t.len() - 2] == '\\'
}

/// The token with every trailing two-backslash marker removed.
pub open spec fn trim_cont(t: Seq<char>) -> Seq<char>
    decreases t.len(),
{
    if ends_cont(t) {
        trim_cont(t.take(t.len() - 2))
    } else {
        t
    }
}

fn ends_cont_exec(t: &Vec<char>) -> (r: bool)
    ensures
        r == ends_cont(t@),
{
    let n = t.len();
    n >= 2 && t[n - 1] == '\\' && t[n - 2] == '\\'
}

fn trim_cont_exec(t: &Vec<char>) -> (out: Vec<char>)
    ensures
        out@ == trim_cont(t@),
{
    let mut out = t.clone();
    proof {
        assert(out@ =~= t@);
    }
    while out.len() >= 2 && out[out.len() - 1] == '\\' && out[out.len() - 2] == '\\'
        invariant
            trim_cont(t@) == trim_cont(out@),
        decreases out.len(),
    {
        let ghost before = out@;
        let m = out.len();
        out.truncate(m - 2);
        proof {
            assert(out@ =~= before.take(before.len() - 2));
        }
    }
    out
}

/// Joining a run of continuation tokens: the accumulator grows by a space and
/// the next trimmed token until a token without the marker ends the run; a run
/// that reaches the end of input is discarded entirely.
pub open spec fn join_cont(acc: Seq<char>, ts: Seq<Seq<char>>) -> Seq<Seq<char>>
    decreases ts.len(), 0int,
{
    if ts.len() == 0 {
        Seq::empty()
    } else {
        let acc2 = acc + seq![' '] + trim_cont(ts[0]);
        if ends_cont(ts[0]) {
            join_cont(acc2, ts.drop_first())
        } else {
            seq![acc2] + join_tokens(ts.drop_first())
        }
    }
}

/// The token list after continuation joining: tokens without the marker pass
/// through; a token with the marker starts a joined run.
pub open spec fn join_tokens(ts: Seq<Seq<char>>) -> Seq<Seq<char>>
    decreases ts.len(), 1int,
{
    if ts.len() == 0 {
        Seq::empty()
    } else if !ends_cont(ts[0]) {
        seq![ts[0]] + join_tokens(ts.drop_first())
    } else {
        join_cont(trim_cont(ts[0]), ts.drop_first())
    }
}

fn push_all(dst: &mut Vec<char>, src: &Vec<char>)
    ensures
        final(dst)@ == old(dst)@ + src@,
{
    let n = src.len();
    let mut j: usize = 0;
    while j < n
        invariant
            j <= n,
            n == src@.len(),
            dst@ == old(dst)@ + src@.take(j as int),
        decreases n - j,
    {
        dst.push(src[j]);
        proof {
            assert(dst@ =~= old(dst)@ + src@.take(j + 1));
        }
        j = j + 1;
    }
    proof {
        assert(src@.take(n as int) =~= src@);
    }
}

fn join_continuations(toks: &Vec<Vec<char>>) -> (out: Vec<Vec<char>>)
    ensures
        toks_view(out@) == join_tokens(toks_view(toks@)),
{
    let n = toks.len();
    let ghost full = toks_view(toks@);
    let mut out: Vec<Vec<char>> = Vec::new();
    let mut i: usize = 0;
    proof {
        assert(full.skip(0) =~= full);
        assert(toks_view(out@) =~= Seq::<Seq<char>>::empty());
        assert(full.len() == n);
    }
    while i < n
        invariant
            i <= n,
            n == toks@.len(),
            full == toks_view(toks@),
            full.len() == n,
            join_tokens(full) == toks_view(out@) + join_tokens(full.skip(i as int)),
        decreases n - i,
    {
        let ghost rem = full.skip(i as int);
        let ghost outv = toks_view(out@);
        proof {
            assert(rem.len() > 0 && rem[0] == full[i as int] && full[i as int] == toks@[i as int]@);
            assert(rem.drop_first() =~= full.skip(i + 1));
        }
        if !ends_cont_exec(&toks[i]) {
            let t = toks[i].clone();
            proof {
                assert(t@ =~= toks@[i as int]@);
            }
            out.push(t);
            proof {
                assert(toks_view(out@) =~= outv.push(rem[0]));
                assert(outv + (seq![rem[0]] + join_tokens(full.skip(i + 1))) =~= outv.push(rem[0])
                    + join_tokens(full.skip(i + 1)));
            }
            i = i + 1;
        } else {
            let mut acc = trim_cont_exec(&toks[i]);
            let ghost i_start = i as int;
            i = i + 1;
            let mut done = false;
            while i < n && !done
                invariant
                    i_start < i <= n,
                    n == toks@.len(),
                    full == toks_view(toks@),
                    full.len() == n,
                    !done ==> join_tokens(full) == toks_view(out@) + join_cont(
                        acc@,
                        full.skip(i as int),
                    ),
                    done ==> join_tokens(full) == toks_view(out@) + join_tokens(
                        full.skip(i as int),
                    ),
                decreases n - i,
            {
                let ghost rem2 = full.skip(i as int);
                let ghost outv2 = toks_view(out@);
                let ghost acc0 = acc@;
                proof {
                    assert(rem2.len() > 0 && rem2[0] == full[i as int] && full[i as int]
                        == toks@[i as int]@);
                    assert(rem2.drop_first() =~= full.skip(i + 1));
                }
                let trimmed = trim_cont_exec(&toks[i]);
                acc.push(' ');
                push_all(&mut acc, &trimmed);
                proof {
                    assert(acc@ =~= acc0 + seq![' '] + trim_cont(rem2[0]));
                }
                let cont = ends_cont_exec(&toks[i]);
                i = i + 1;
                if !cont {
                    let finished = acc.clone();
                    proof {
                        assert(finished@ =~= acc@);
                    }
                    out.push(finished);
                    done = true;
                    proof {
                        assert(toks_view(out@) =~= outv2.push(acc@));
                        assert(outv2 + (seq![acc@] + join_tokens(full.skip(i as int)))
                            =~= outv2.push(acc@) + join_tokens(full.skip(i as int)));
                    }
                }
            }
            proof {
                if !done {
                    assert(i == n);
                    assert(full.skip(n as int) =~= Seq::<Seq<char>>::empty());
                    assert(join_cont(acc@, full.skip(n as int)) =~= Seq::<Seq<char>>::empty());
                    assert(join_tokens(full.skip(n as int)) =~= Seq::<Seq<char>>::empty());
                }
            }
        }
    }
    proof {
        assert(full.skip(n as int) =~= Seq::<Seq<char>>::empty());
        assert(toks_view(out@) + Seq::<Seq<char>>::empty() =~= toks_view(out@));
    }
    out
}

/// A field-code placeholder reserved by the entry format for runtime
/// substitution; such tokens never survive as arguments.
pub open spec fn is_field_code(t: Seq<char>) -> bool {
    t.len() == 2 && t[0] == '%' && (t[1] == 'f' || t[1] == 'F' || t[1] == 'u' || t[1] == 'U' || t[1]
        == 'd' || t[1] == 'D' || t[1] == 'n' || t[1] == 'N' || t[1] == 'i' || t[1] == 'c' || t[1]
        == 'v' || t[1] == 'm')
}

/// Whether an argument token is a field-code placeholder to be dropped.
pub fn skip_arg(arg: &str) -> (r: bool)
    ensures
        r == is_field_code(arg@),
{
    if arg.unicode_len() != 2 {
        return false;
    }
    if arg.get_char(0) != '%' {
        return false;
    }
    let c = arg.get_char(1);
    c == 'f' || c == 'F' || c == 'u' || c == 'U' || c == 'd' || c == 'D' || c == 'n' || c == 'N'
        || c == 'i' || c == 'c' || c == 'v' || c == 'm'
}

/// The argument tokens with field-code placeholders removed.
pub open spec fn drop_field_codes(ts: Seq<Seq<char>>) -> Seq<Seq<char>>
    decreases ts.len(),
{
    if ts.len() == 0 {
        Seq::empty()
    } else if is_field_code(ts[0]) {
        drop_field_codes(ts.drop_first())
    } else {
        seq![ts[0]] + drop_field_codes(ts.drop_first())
    }
}

/// The tokens a raw command string yields: escapes collapsed, quotes
/// stripped, whitespace split, continuations joined.
pub open spec fn exec_tokens(s: Seq<char>) -> Seq<Seq<char>> {
    join_tokens(split_ws(strip_quotes_spec(collapse_bs(s))))
}

/// What parsing a raw command string returns: the first token is the program,
/// the remaining tokens minus field codes are the arguments; with no token at
/// all the string is malformed.
pub open spec fn parse_exec_spec(s: Seq<char>) -> Result<ExecView, EntryError> {
    let toks = exec_tokens(s);
    if toks.len() == 0 {
        Err(EntryError::MalformedExec)
    } else {
        Ok(ExecView { cmd: toks[0], args: drop_field_codes(toks.drop_first()) })
    }
}

/// The view of an executable parse result, for stating contracts.
pub open spec fn exec_result_view(r: Result<Exec, EntryError>) -> Result<ExecView, EntryError> {
    match r {
        Ok(e) => Ok(e@),
        Err(x) => Err(x),
    }
}

/// Every token in the list holds at least one character.
pub open spec fn all_nonempty(ts: Seq<Seq<char>>) -> bool {
    forall|i: int| 0 <= i < ts.len() ==> (#[trigger] ts[i]).len() > 0
}

proof fn lemma_split_tokens_nonempty(s: Seq<char>, cur: Seq<char>)
    ensures
        all_nonempty(split_ws_acc(s, cur)),
    decreases s.len(),
{
    if s.len() == 0 {
    } else if is_ws_char(s[0]) {
        lemma_split_tokens_nonempty(s.drop_first(), Seq::empty());
        if cur.len() > 0 {
            let tail = split_ws_acc(s.drop_first(), Seq::empty());
            assert forall|i: int| 0 <= i < (seq![cur] + tail).len() implies (#[trigger] (seq![cur]
                + tail)[i]).len() > 0 by {
                if i > 0 {
                    assert((seq![cur] + tail)[i] == tail[i - 1]);
                }
            }
        }
    } else {
        lemma_split_tokens_nonempty(s.drop_first(), cur.push(s[0]));
    }
}

proof fn lemma_join_cont_nonempty(acc: Seq<char>, ts: Seq<Seq<char>>)
    requires
        all_nonempty(ts),
    ensures
        all_nonempty(join_cont(acc, ts)),
    decreases ts.len(), 0int,
{
    if ts.len() == 0 {
    } else {
        let tail = ts.drop_first();
        assert(all_nonempty(tail)) by {
            assert forall|i: int| 0 <= i < tail.len() implies (#[trigger] tail[i]).len() > 0 by {
                assert(tail[i] == ts[i + 1]);
            }
        }
        let acc2 = acc + seq![' '] + trim_cont(ts[0]);
        assert(acc2.len() > 0);
        if ends_cont(ts[0]) {
            lemma_join_cont_nonempty(acc2, tail);
        } else {
            lemma_join_tokens_nonempty(tail);
            let rest = join_tokens(tail);
            assert forall|i: int| 0 <= i < (seq![acc2] + rest).len() implies (#[trigger] (seq![acc2]
                + rest)[i]).len() > 0 by {
                if i > 0 {
                    assert((seq![acc2] + rest)[i] == rest[i - 1]);
                }
            }
        }
    }
}

proof fn lemma_join_tokens_nonempty(ts: Seq<Seq<char>>)
    requires
        all_nonempty(ts),
    ensures
        all_nonempty(join_tokens(ts)),
    decreases ts.len(), 1int,
{
    if ts.len() == 0 {
    } else {
        let tail = ts.drop_first();
        assert(all_nonempty(tail)) by {
            assert forall|i: int| 0 <= i < tail.len() implies (#[trigger] tail[i]).len() > 0 by {
                assert(tail[i] == ts[i + 1]);
            }
        }
        if !ends_cont(ts[0]) {
            lemma_join_tokens_nonempty(tail);
            let rest = join_tokens(tail);
            assert forall|i: int|
                0 <= i < (seq![ts[0]] + rest).len() implies (#[trigger] (seq![ts[0]]
                + rest)[i]).len() > 0 by {
                if i > 0 {
                    assert((seq![ts[0]] + rest)[i] == rest[i - 1]);
                }
            }
        } else {
            lemma_join_cont_nonempty(trim_cont(ts[0]), tail);
        }
    }
}

proof fn lemma_drop_field_codes_clean(ts: Seq<Seq<char>>)
    ensures
        forall|i: int|
            0 <= i < drop_field_codes(ts).len() ==> !is_field_code(
                #[trigger] drop_field_codes(ts)[i],
            ),
    decreases ts.len(),
{
    if ts.len() == 0 {
    } else {
        lemma_drop_field_codes_clean(ts.drop_first());
        if !is_field_code(ts[0]) {
            let rest = drop_field_codes(ts.drop_first());
            assert forall|i: int| 0 <= i < (seq![ts[0]] + rest).len() implies !is_field_code(
                #[trigger] (seq![ts[0]] + rest)[i],
            ) by {
                if i > 0 {
                    assert((seq![ts[0]] + rest)[i] == rest[i - 1]);
                }
            }
        }
    }
}

/// The command invariant: a successfully parsed command's program token is
/// never empty, and no surviving argument is a field-code placeholder.
pub proof fn lemma_parse_exec_invariants(s: Seq<char>)
    requires
        parse_exec_spec(s) is Ok,
    ensures
        parse_exec_spec(s)->Ok_0.cmd.len() > 0,
        forall|i: int|
            0 <= i < parse_exec_spec(s)->Ok_0.args.len() ==> !is_field_code(
                #[trigger] parse_exec_spec(s)->Ok_0.args[i],
            ),
{
    lemma_split_tokens_nonempty(strip_quotes_spec(collapse_bs(s)), Seq::empty());
    lemma_join_tokens_nonempty(split_ws(strip_quotes_spec(collapse_bs(s))));
    lemma_drop_field_codes_clean(exec_tokens(s).drop_first());
}

/// Parse a raw `Exec=` command string into a program and its arguments.
///
/// Fails exactly when no program token can be extracted.
pub fn parse_exec(s: &str) -> (r: Result<Exec, EntryError>)
    ensures
        exec_result_view(r) == parse_exec_spec(s@),
        r is Ok <==> exec_tokens(s@).len() > 0,
{
    let chars = str_to_chars(s);
    let collapsed = collapse_backslashes(&chars);
    let stripped = strip_quotes(&collapsed);
    let split = split_whitespace_chars(&stripped);
    let toks = join_continuations(&split);
    let ghost tv = toks_view(toks@);
    proof {
        assert(tv == exec_tokens(s@));
        assert(tv.len() == toks@.len());
    }
    if toks.len() == 0 {
        return Err(EntryError::MalformedExec);
    }
    let cmd = chars_to_string(&toks[0]);
    let mut args: Vec<String> = Vec::new();
    let mut i: usize = 1;
    let n = toks.len();
    proof {
        assert(args@.map_values(|a: String| a@) =~= Seq::<Seq<char>>::empty());
        assert(tv.skip(1)
            =~= tv.drop_first());
    }
    while i < n
        invariant
            1 <= i <= n,
            n == toks@.len(),
            tv == toks_view(toks@),
            tv.len() == n,
            drop_field_codes(tv.drop_first()) == args@.map_values(|a: String| a@)
                + drop_field_codes(tv.skip(i as int)),
        decreases n - i,
    {
        let ghost rem = tv.skip(i as int);
        let ghost argsv = args@.map_values(|a: String| a@);
        proof {
            assert(rem.len() > 0 && rem[0] == tv[i as int] && tv[i as int] == toks@[i as int]@);
            assert(rem.drop_first() =~= tv.skip(i + 1));
        }
        let a = chars_to_string(&toks[i]);
        if !skip_arg(a.as_str()) {
            let ghost av = a@;
            args.push(a);
            proof {
                assert(args@.map_values(|x: String| x@) =~= argsv.push(av));
                assert(argsv + (seq![av] + drop_field_codes(tv.skip(i + 1))) =~= argsv.push(av)
                    + drop_field_codes(tv.skip(i + 1)));
            }
        }
        i = i + 1;
    }
    proof {
        assert(tv.skip(n as int) =~= Seq::<Seq<char>>::empty());
        assert(args@.map_values(|a: String| a@) + Seq::<Seq<char>>::empty() =~= args@.map_values(
            |a: String| a@,
        ));
    }
    let r = Exec { cmd, args };
    proof {
        assert(r@.cmd == tv[0]);
        assert(r@.args == drop_field_codes(tv.drop_first()));
    }
    Ok(r)
}

} // verus!
