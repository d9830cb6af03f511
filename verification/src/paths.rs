//! Windows path and command-line text handling.
use vstd::prelude::*;

use crate::text::{chars_of, push_char, string_of};

verus! {

/// `s` without its trailing backslashes.
pub open spec fn trim_backslashes(s: Seq<char>) -> Seq<char>
    decreases s.len(),
{
    if s.len() > 0 && s.last() == '\\' {
        trim_backslashes(s.drop_last())
    } else {
        s
    }
}

/// `s` without its trailing backslashes and slashes.
pub open spec fn trim_separators(s: Seq<char>) -> Seq<char>
    decreases s.len(),
{
    if s.len() > 0 && (s.last() == '\\' || s.last() == '/') {
        trim_separators(s.drop_last())
    } else {
        s
    }
}

/// `s` with every double quote preceded by a backslash.
pub open spec fn escape_quotes(s: Seq<char>) -> Seq<char>
    decreases s.len(),
{
    if s.len() == 0 {
        s
    } else if s.last() == '"' {
        escape_quotes(s.drop_last()) + seq!['\\', '"']
    } else {
        escape_quotes(s.drop_last()).push(s.last())
    }
}

/// `n` backslashes.
pub open spec fn backslashes(n: nat) -> Seq<char>
    decreases n,
{
    if n == 0 {
        Seq::empty()
    } else {
        backslashes((n - 1) as nat).push('\\')
    }
}

/// The argument contains a character that needs quoting.
pub open spec fn needs_quotes(s: Seq<char>) -> bool {
    exists|i: int| 0 <= i < s.len() && (s[i] == ' ' || s[i] == '\t' || s[i] == '"')
}

/// `s` as one argument for `CommandLineToArgvW`.
pub open spec fn spec_quote_arg(s: Seq<char>) -> Seq<char> {
    if !needs_quotes(s) {
        s
    } else {
        seq!['"'] + escape_quotes(s) + backslashes((s.len() - trim_backslashes(s).len()) as nat)
            + seq!['"']
    }
}

pub open spec fn is_ascii_letter(c: char) -> bool {
    ('a' <= c && c <= 'z') || ('A' <= c && c <= 'Z')
}

pub open spec fn to_upper(c: char) -> char {
    if 'a' <= c && c <= 'z' {
        ((c as int) - 32) as char
    } else {
        c
    }
}

/// `s` is a bare drive such as `C:`.
pub open spec fn is_bare_drive(s: Seq<char>) -> bool {
    s.len() == 2 && is_ascii_letter(s[0]) && s[1] == ':'
}

/// A command-line path argument as the user meant it: a trailing quote
/// (Explorer's `"C:\"` read back as `C:"`) becomes a backslash, and a bare
/// drive letter means the volume root.
pub open spec fn spec_normalize(arg: Seq<char>) -> Seq<char> {
    let a = if arg.len() > 0 && arg.last() == '"' {
        trim_backslashes(arg.drop_last()).push('\\')
    } else {
        arg
    };
    if is_bare_drive(a) {
        a.push('\\')
    } else {
        a
    }
}

/// A bare drive, a letter of either case and a colon, means the root of
/// that volume: it gets a backslash.
pub proof fn law_bare_drive_is_root(a: Seq<char>)
    requires
        a.len() == 2,
        ('a' <= a[0] && a[0] <= 'z') || ('A' <= a[0] && a[0] <= 'Z'),
        a[1] == ':',
    ensures
        spec_normalize(a) == a.push('\\'),
{
}

/// The drive letter of a volume root such as `C:\` or `d:`, upper-cased.
pub open spec fn spec_volume_letter(path: Seq<char>) -> Option<char> {
    let t = trim_separators(path);
    if is_bare_drive(t) {
        Some(to_upper(t[0]))
    } else {
        None
    }
}

/// Number of characters left after trimming trailing backslashes from the
/// first `n` characters.
fn trimmed_len(v: &Vec<char>, n: usize) -> (k: usize)
    requires
        n <= v@.len(),
    ensures
        k <= n,
        v@.subrange(0, k as int) == trim_backslashes(v@.subrange(0, n as int)),
{
    let mut k = n;
    while k > 0 && v[k - 1] == '\\'
        invariant
            k <= n <= v@.len(),
            trim_backslashes(v@.subrange(0, k as int)) == trim_backslashes(v@.subrange(0, n as int)),
        decreases k,
    {
        proof {
            assert(v@.subrange(0, k as int).drop_last() =~= v@.subrange(0, k - 1));
        }
        k -= 1;
    }
    k
}

proof fn lemma_trim_backslashes_prefix(s: Seq<char>)
    ensures
        trim_backslashes(s) == s.subrange(0, trim_backslashes(s).len() as int),
        trim_backslashes(s).len() <= s.len(),
        backslashes((s.len() - trim_backslashes(s).len()) as nat) == s.subrange(
            trim_backslashes(s).len() as int,
            s.len() as int,
        ),
    decreases s.len(),
{
    if s.len() > 0 && s.last() == '\\' {
        lemma_trim_backslashes_prefix(s.drop_last());
        let t = trim_backslashes(s);
        assert(s.drop_last().subrange(0, t.len() as int) =~= s.subrange(0, t.len() as int));
        assert(s.subrange(t.len() as int, s.len() as int) =~= s.drop_last().subrange(
            t.len() as int,
            s.drop_last().len() as int,
        ).push('\\'));
    } else {
        assert(s.subrange(0, s.len() as int) =~= s);
        assert(s.subrange(s.len() as int, s.len() as int) =~= Seq::<char>::empty());
    }
}

/// Quote a single command-line argument for `CommandLineToArgvW`, which
/// treats backslashes before a closing quote as escapes: `"D:\My Dir\"`
/// would swallow its closing quote, so trailing backslashes are doubled.
pub fn quote_arg(s: &str) -> (r: String)
    ensures
        r@ == spec_quote_arg(s@),
{
    let v = chars_of(s);
    let n = v.len();
    let mut special = false;
    let mut i: usize = 0;
    while i < n
        invariant
            n == v@.len(),
            v@ == s@,
            i <= n,
            special == exists|j: int| 0 <= j < i && (v@[j] == ' ' || v@[j] == '\t' || v@[j] == '"'),
        decreases n - i,
    {
        if v[i] == ' ' || v[i] == '\t' || v[i] == '"' {
            special = true;
        }
        i += 1;
    }
    if !special {
        return string_of(&v, 0, n);
    }
    let mut out = String::new();
    push_char(&mut out, '"');
    let mut i: usize = 0;
    while i < n
        invariant
            n == v@.len(),
            i <= n,
            out@ == seq!['"'] + escape_quotes(v@.subrange(0, i as int)),
        decreases n - i,
    {
        let c = v[i];
        if c == '"' {
            push_char(&mut out, '\\');
        }
        push_char(&mut out, c);
        proof {
            assert(v@.subrange(0, i + 1).drop_last() =~= v@.subrange(0, i as int));
            assert(out@ =~= seq!['"'] + escape_quotes(v@.subrange(0, i + 1)));
        }
        i += 1;
    }
    let k = trimmed_len(&v, n);
    proof {
        assert(v@.subrange(0, n as int) =~= v@);
        assert(v@.subrange(k as int, k as int) =~= Seq::<char>::empty());
        assert(out@ =~= seq!['"'] + escape_quotes(v@) + v@.subrange(k as int, k as int));
        assert(trim_backslashes(v@).len() == k);
    }
    let mut j = k;
    while j < n
        invariant
            k <= j <= n,
            n == v@.len(),
            trim_backslashes(v@).len() == k,
            out@ == seq!['"'] + escape_quotes(v@) + v@.subrange(k as int, j as int),
        decreases n - j,
    {
        push_char(&mut out, '\\');
        proof {
            assert(out@ =~= seq!['"'] + escape_quotes(v@) + v@.subrange(k as int, j + 1)) by {
                lemma_trim_backslashes_prefix(v@);
                let t = trim_backslashes(v@);
                assert(backslashes((v@.len() - t.len()) as nat) == v@.subrange(t.len() as int, v@.len() as int));
                lemma_backslashes_index((v@.len() - t.len()) as nat, j - k);
                assert(v@[j as int] == '\\');
            }
        }
        j += 1;
    }
    push_char(&mut out, '"');
    proof {
        assert(v@.subrange(0, n as int) =~= v@);
        lemma_trim_backslashes_prefix(v@);
        assert(out@ =~= spec_quote_arg(s@));
    }
    out
}

proof fn lemma_backslashes_index(n: nat, i: int)
    requires
        0 <= i < n,
    ensures
        backslashes(n)[i] == '\\',
        backslashes(n).len() == n,
    decreases n,
{
    if i < n - 1 {
        lemma_backslashes_index((n - 1) as nat, i);
    } else {
        lemma_backslashes_len((n - 1) as nat);
    }
}

proof fn lemma_backslashes_len(n: nat)
    ensures
        backslashes(n).len() == n,
    decreases n,
{
    if n > 0 {
        lemma_backslashes_len((n - 1) as nat);
    }
}

fn is_letter(c: char) -> (r: bool)
    ensures
        r == is_ascii_letter(c),
{
    ('a' <= c && c <= 'z') || ('A' <= c && c <= 'Z')
}

fn upper(c: char) -> (r: char)
    ensures
        r == to_upper(c),
{
    if 'a' <= c && c <= 'z' {
        ((c as u32) - 32) as u8 as char
    } else {
        c
    }
}

/// `C:` means "current directory on C" to Windows; a bare drive letter given
/// by the user always means the volume root.
///
/// Explorer's context menu passes a drive as `"C:\"`; Windows argument
/// parsing reads `\"` as an escaped quote, so the program receives `C:"`.
/// A trailing quote is therefore turned back into a backslash.
pub fn normalize(arg: &str) -> (r: String)
    ensures
        r@ == spec_normalize(arg@),
{
    let v = chars_of(arg);
    let n = v.len();
    let mut a: Vec<char> = Vec::new();
    if n > 0 && v[n - 1] == '"' {
        let k = trimmed_len(&v, n - 1);
        let mut i: usize = 0;
        while i < k
            invariant
                k <= n - 1,
                n == v@.len(),
                i <= k,
                a@ == v@.subrange(0, i as int),
            decreases k - i,
        {
            a.push(v[i]);
            proof {
                assert(a@ =~= v@.subrange(0, i + 1));
            }
            i += 1;
        }
        a.push('\\');
        proof {
            assert(v@.subrange(0, (n - 1) as int) =~= v@.drop_last());
        }
    } else {
        a = v;
    }
    let ghost aa = a@;
    assert(aa == (if arg@.len() > 0 && arg@.last() == '"' {
        trim_backslashes(arg@.drop_last()).push('\\')
    } else {
        arg@
    }));
    if a.len() == 2 && is_letter(a[0]) && a[1] == ':' {
        a.push('\\');
    }
    let m = a.len();
    string_of(&a, 0, m)
}

/// `C:\` -> `Some('C')`; any other path (subdirectory, UNC) -> `None`.
pub fn volume_letter(path: &str) -> (r: Option<char>)
    ensures
        r == spec_volume_letter(path@),
{
    let v = chars_of(path);
    let mut k = v.len();
    proof {
        assert(v@.subrange(0, k as int) =~= path@);
    }
    while k > 0 && (v[k - 1] == '\\' || v[k - 1] == '/')
        invariant
            k <= v@.len(),
            v@ == path@,
            trim_separators(v@.subrange(0, k as int)) == trim_separators(path@),
        decreases k,
    {
        proof {
            assert(v@.subrange(0, k as int).drop_last() =~= v@.subrange(0, k - 1));
        }
        k -= 1;
    }
    proof {
        if k == v@.len() {
            assert(v@.subrange(0, k as int) =~= path@);
        }
        assert(trim_separators(v@.subrange(0, k as int)) == v@.subrange(0, k as int));
    }
    if k == 2 && is_letter(v[0]) && v[1] == ':' {
        Some(upper(v[0]))
    } else {
        None
    }
}

// --- reading a command line back ------------------------------------------

/// The argument `CommandLineToArgvW` reads from `s`: inside or outside
/// double quotes (`inq`), with `bs` backslashes pending. Backslashes are
/// literal unless they precede a double quote: an even run before one
/// gives half as many and the quote opens or closes a quoted part, an odd
/// run gives half as many and a literal quote. Unquoted white space ends
/// the argument.
pub open spec fn read_arg(s: Seq<char>, inq: bool, bs: nat) -> Seq<char>
    decreases s.len(),
{
    if s.len() == 0 {
        backslashes(bs)
    } else if s[0] == '\\' {
        read_arg(s.drop_first(), inq, bs + 1)
    } else if s[0] == '"' {
        if bs % 2 == 0 {
            backslashes(bs / 2) + read_arg(s.drop_first(), !inq, 0)
        } else {
            backslashes(bs / 2) + seq!['"'] + read_arg(s.drop_first(), inq, 0)
        }
    } else if !inq && (s[0] == ' ' || s[0] == '\t') {
        backslashes(bs)
    } else {
        backslashes(bs) + seq![s[0]] + read_arg(s.drop_first(), inq, 0)
    }
}

/// Reading characters without quotes: what is emitted, and how many
/// backslashes are left pending at the end.
pub open spec fn emit(t: Seq<char>, bs: nat) -> (Seq<char>, nat)
    decreases t.len(),
{
    if t.len() == 0 {
        (Seq::empty(), bs)
    } else if t[0] == '\\' {
        emit(t.drop_first(), bs + 1)
    } else {
        let (o, k) = emit(t.drop_first(), 0);
        (backslashes(bs) + seq![t[0]] + o, k)
    }
}

pub open spec fn has_no_quote(t: Seq<char>) -> bool {
    forall|i: int| 0 <= i < t.len() ==> t[i] != '"'
}

pub open spec fn has_no_blank(t: Seq<char>) -> bool {
    forall|i: int| 0 <= i < t.len() ==> t[i] != ' ' && t[i] != '\t'
}

proof fn lemma_backslashes_cons(n: nat)
    requires
        n > 0,
    ensures
        backslashes(n) == seq!['\\'] + backslashes((n - 1) as nat),
    decreases n,
{
    if n > 1 {
        lemma_backslashes_cons((n - 1) as nat);
        assert(backslashes(n) =~= seq!['\\'] + backslashes((n - 1) as nat));
    } else {
        assert(backslashes(1) =~= seq!['\\'] + backslashes(0));
    }
}

/// Reading quote-free text goes through `emit`.
proof fn lemma_read_through(t: Seq<char>, rest: Seq<char>, inq: bool, bs: nat)
    requires
        has_no_quote(t),
        inq || has_no_blank(t),
    ensures
        read_arg(t + rest, inq, bs) == emit(t, bs).0 + read_arg(rest, inq, emit(t, bs).1),
    decreases t.len(),
{
    if t.len() == 0 {
        assert(t + rest =~= rest);
        assert(Seq::<char>::empty() + read_arg(rest, inq, bs) =~= read_arg(rest, inq, bs));
    } else {
        let tr = t.drop_first();
        assert((t + rest).drop_first() =~= tr + rest);
        assert((t + rest)[0] == t[0]);
        assert(has_no_quote(tr)) by {
            assert forall|i: int| 0 <= i < tr.len() implies tr[i] != '"' by {
                assert(tr[i] == t[i + 1]);
            }
        }
        assert(inq || has_no_blank(tr)) by {
            if !inq {
                assert forall|i: int| 0 <= i < tr.len() implies tr[i] != ' ' && tr[i] != '\t' by {
                    assert(tr[i] == t[i + 1]);
                }
            }
        }
        assert(t[0] != '"');
        if t[0] == '\\' {
            lemma_read_through(tr, rest, inq, bs + 1);
        } else {
            lemma_read_through(tr, rest, inq, 0);
            let (o, k) = emit(tr, 0);
            assert(backslashes(bs) + seq![t[0]] + (o + read_arg(rest, inq, k)) =~= (backslashes(bs) + seq![t[0]]
                + o) + read_arg(rest, inq, k));
        }
    }
}

/// What was emitted and what is pending make up the text.
proof fn lemma_emit_whole(t: Seq<char>, bs: nat)
    ensures
        emit(t, bs).0 + backslashes(emit(t, bs).1) == backslashes(bs) + t,
        emit(t, bs).0.len() == 0 || emit(t, bs).0.last() != '\\',
    decreases t.len(),
{
    if t.len() == 0 {
        assert(Seq::<char>::empty() + backslashes(bs) =~= backslashes(bs) + t);
    } else if t[0] == '\\' {
        lemma_emit_whole(t.drop_first(), bs + 1);
        assert(backslashes(bs + 1) + t.drop_first() =~= backslashes(bs) + t);
    } else {
        lemma_emit_whole(t.drop_first(), 0);
        let (o, k) = emit(t.drop_first(), 0);
        assert(backslashes(0) + t.drop_first() =~= t.drop_first());
        assert(o + backslashes(k) == t.drop_first());
        assert(seq![t[0]] + t.drop_first() =~= t);
        assert(backslashes(bs) + seq![t[0]] + o + backslashes(k) =~= backslashes(bs) + (seq![t[0]] + (o
            + backslashes(k))));
    }
}

/// Appending backslashes to quote-free text only adds to what is pending.
proof fn lemma_emit_more_backslashes(t: Seq<char>, bs: nat, j: nat)
    ensures
        emit(t + backslashes(j), bs) == (emit(t, bs).0, emit(t, bs).1 + j),
    decreases t.len(), j,
{
    if t.len() == 0 {
        assert(t + backslashes(j) =~= backslashes(j));
        if j > 0 {
            lemma_backslashes_cons(j);
            assert(backslashes(j).drop_first() =~= backslashes((j - 1) as nat));
            lemma_emit_more_backslashes(t, bs + 1, (j - 1) as nat);
            assert(t + backslashes((j - 1) as nat) =~= backslashes((j - 1) as nat));
        }
    } else {
        assert((t + backslashes(j)).drop_first() =~= t.drop_first() + backslashes(j));
        assert((t + backslashes(j))[0] == t[0]);
        if t[0] == '\\' {
            lemma_emit_more_backslashes(t.drop_first(), bs + 1, j);
        } else {
            lemma_emit_more_backslashes(t.drop_first(), 0, j);
        }
    }
}

/// Text that does not end with a backslash is its own trim.
proof fn lemma_trim_appended(o: Seq<char>, k: nat)
    requires
        o.len() == 0 || o.last() != '\\',
    ensures
        trim_backslashes(o + backslashes(k)) == o,
        (o + backslashes(k)).len() - trim_backslashes(o + backslashes(k)).len() == k,
    decreases k,
{
    lemma_backslashes_len(k);
    if k == 0 {
        assert(o + backslashes(0) =~= o);
    } else {
        lemma_trim_appended(o, (k - 1) as nat);
        assert((o + backslashes(k)).drop_last() =~= o + backslashes((k - 1) as nat));
        assert((o + backslashes(k)).last() == '\\');
    }
}

/// No double quote in `s` follows a backslash.
pub open spec fn no_escaped_quote(s: Seq<char>) -> bool {
    forall|i: int| 0 < i < s.len() && #[trigger] s[i] == '"' ==> s[i - 1] != '\\'
}

/// Escaping works character by character from the front too.
proof fn lemma_escape_cons(c: char, t: Seq<char>)
    ensures
        escape_quotes(seq![c] + t) == (if c == '"' {
            seq!['\\', '"']
        } else {
            seq![c]
        }) + escape_quotes(t),
    decreases t.len(),
{
    let head: Seq<char> = if c == '"' {
        seq!['\\', '"']
    } else {
        seq![c]
    };
    let s1 = seq![c] + t;
    if t.len() == 0 {
        assert(s1.len() == 1);
        assert(s1.last() == c);
        assert(s1.drop_last() =~= Seq::<char>::empty());
        assert(escape_quotes(s1.drop_last()) =~= Seq::<char>::empty());
        assert(escape_quotes(t) =~= Seq::<char>::empty());
        if c == '"' {
            assert(escape_quotes(s1) == escape_quotes(s1.drop_last()) + seq!['\\', '"']);
        } else {
            assert(escape_quotes(s1) == escape_quotes(s1.drop_last()).push(c));
        }
        assert(escape_quotes(s1) =~= head + escape_quotes(t));
    } else {
        lemma_escape_cons(c, t.drop_last());
        assert(s1.drop_last() =~= seq![c] + t.drop_last());
        assert(s1.last() == t.last());
        let e = escape_quotes(t.drop_last());
        assert(escape_quotes(s1.drop_last()) == head + e);
        if t.last() == '"' {
            assert(escape_quotes(s1) == escape_quotes(s1.drop_last()) + seq!['\\', '"']);
            assert(escape_quotes(t) == e + seq!['\\', '"']);
            assert(escape_quotes(s1) =~= head + escape_quotes(t));
        } else {
            assert(escape_quotes(s1) == escape_quotes(s1.drop_last()).push(t.last()));
            assert(escape_quotes(t) == e.push(t.last()));
            assert(escape_quotes(s1) =~= head + escape_quotes(t));
        }
    }
}

/// Reading escaped text inside quotes goes through `emit` of the text
/// itself: each escaped double quote reads as one double quote.
proof fn lemma_read_escaped(s: Seq<char>, tail: Seq<char>, bs: nat)
    requires
        no_escaped_quote(s),
        s.len() > 0 && s[0] == '"' ==> bs == 0,
    ensures
        read_arg(escape_quotes(s) + tail, true, bs) == emit(s, bs).0 + read_arg(tail, true, emit(s, bs).1),
    decreases s.len(),
{
    if s.len() == 0 {
        assert(escape_quotes(s) + tail =~= tail);
        assert(Seq::<char>::empty() + read_arg(tail, true, bs) =~= read_arg(tail, true, bs));
    } else {
        let c = s[0];
        let sr = s.drop_first();
        assert(seq![c] + sr =~= s);
        lemma_escape_cons(c, sr);
        assert(no_escaped_quote(sr)) by {
            assert forall|i: int| 0 < i < sr.len() && #[trigger] sr[i] == '"' implies sr[i - 1] != '\\' by {
                assert(sr[i] == s[i + 1] && sr[i - 1] == s[i]);
            }
        }
        let er = escape_quotes(sr);
        let (o, k) = emit(sr, 0);
        if c == '\\' {
            if sr.len() > 0 {
                assert(sr[0] == s[1]);
            }
            lemma_read_escaped(sr, tail, bs + 1);
            let x = seq!['\\'] + er + tail;
            assert(escape_quotes(s) + tail =~= x);
            assert(x.drop_first() =~= er + tail);
        } else if c == '"' {
            lemma_read_escaped(sr, tail, 0);
            let x = seq!['\\', '"'] + er + tail;
            assert(escape_quotes(s) + tail =~= x);
            assert(x.drop_first() =~= seq!['"'] + (er + tail));
            assert((seq!['"'] + (er + tail)).drop_first() =~= er + tail);
            assert(read_arg(x.drop_first(), true, 1) == backslashes(0) + seq!['"'] + read_arg(er + tail, true, 0));
            assert(backslashes(0) + seq!['"'] + (o + read_arg(tail, true, k)) =~= (backslashes(0) + seq![c] + o)
                + read_arg(tail, true, k));
        } else {
            lemma_read_escaped(sr, tail, 0);
            let x = seq![c] + er + tail;
            assert(escape_quotes(s) + tail =~= x);
            assert(x.drop_first() =~= er + tail);
            assert(backslashes(bs) + seq![c] + (o + read_arg(tail, true, k)) =~= (backslashes(bs) + seq![c] + o)
                + read_arg(tail, true, k));
        }
    }
}

/// A quoted argument reads back as itself: `CommandLineToArgvW` reading the
/// text `quote_arg` gives, followed by the end of the command line or white
/// space, yields the argument, unless a double quote in it follows a
/// backslash.
pub proof fn law_quoted_argument_reads_back(s: Seq<char>, rest: Seq<char>)
    requires
        no_escaped_quote(s),
        rest.len() == 0 || rest[0] == ' ' || rest[0] == '\t',
    ensures
        read_arg(spec_quote_arg(s) + rest, false, 0) == s,
{
    let (o, k) = emit(s, 0);
    lemma_emit_whole(s, 0);
    assert(backslashes(0) + s =~= s);
    // After the argument, reading stops with the pending backslashes.
    assert(read_arg(rest, false, k) == backslashes(k));
    if !needs_quotes(s) {
        assert(has_no_blank(s) && has_no_quote(s)) by {
            assert forall|i: int| 0 <= i < s.len() implies s[i] != ' ' && s[i] != '\t' && s[i] != '"' by {
                if s[i] == ' ' || s[i] == '\t' || s[i] == '"' {
                    assert(needs_quotes(s));
                }
            }
        }
        lemma_read_through(s, rest, false, 0);
    } else {
        lemma_trim_appended(o, k);
        let bk = backslashes(k);
        let q = spec_quote_arg(s);
        assert(q == seq!['"'] + escape_quotes(s) + bk + seq!['"']);
        let inner = seq!['"'] + rest;
        let t = escape_quotes(s) + (bk + inner);
        assert(q + rest =~= seq!['"'] + t);
        assert((q + rest).drop_first() =~= t);
        assert(read_arg(q + rest, false, 0) == backslashes(0) + read_arg(t, true, 0));
        lemma_read_escaped(s, bk + inner, 0);
        assert(has_no_quote(bk)) by {
            lemma_backslashes_len(k);
            assert forall|i: int| 0 <= i < bk.len() implies bk[i] != '"' by {
                lemma_backslashes_index(k, i);
            }
        }
        lemma_read_through(bk, inner, true, k);
        lemma_emit_more_backslashes(Seq::<char>::empty(), k, k);
        assert(Seq::<char>::empty() + bk =~= bk);
        assert(emit(Seq::<char>::empty(), k) == (Seq::<char>::empty(), k));
        assert(inner.drop_first() =~= rest);
        assert((k + k) % 2 == 0 && (k + k) / 2 == k);
        assert(read_arg(inner, true, k + k) == backslashes(k) + read_arg(rest, false, 0));
        assert(read_arg(rest, false, 0) == backslashes(0));
        assert(Seq::<char>::empty() + (bk + backslashes(0)) =~= bk);
        assert(backslashes(0) + (o + bk) =~= s);
    }
}

} // verus!
