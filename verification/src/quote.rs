//! Shell-argument quoting for the script runner. A safe argument passes
//! through unchanged; anything with whitespace, quotes, or a leading dash is
//! quoted — with POSIX single quotes on Unix, double quotes on Windows —
//! so that flags appended to a script line survive the shell.

use vstd::prelude::*;

verus! {

use crate::strutil::{string_to_chars, chars_to_string};
use crate::canon::is_space;

/// A character the Unix quoter treats as safe outside quotes.
pub open spec fn unix_safe_char(c: char) -> bool {
    !is_space(c) && c != '"' && c != '\''
}

/// Arguments that pass through unchanged on Unix: nonempty, no whitespace or
/// quotes, and not dash-led.
pub open spec fn unix_plain(s: Seq<char>) -> bool {
    &&& s.len() > 0
    &&& forall|i: int| 0 <= i < s.len() ==> unix_safe_char(#[trigger] s[i])
    &&& s[0] != '-'
}

/// The single-quoted form: every inner `'` becomes `'\''`.
pub open spec fn unix_quoted_body(s: Seq<char>) -> Seq<char>
    decreases s.len(),
{
    if s.len() == 0 {
        Seq::empty()
    } else {
        (if s[0] == '\'' {
            seq!['\'', '\\', '\'', '\'']
        } else {
            seq![s[0]]
        }) + unix_quoted_body(s.drop_first())
    }
}

/// What the Unix quoter returns for any argument.
pub open spec fn unix_quote_spec(s: Seq<char>) -> Seq<char> {
    if unix_plain(s) {
        s
    } else {
        seq!['\''] + unix_quoted_body(s) + seq!['\'']
    }
}

/// Quote one argument for a POSIX shell.
pub fn quote_arg_unix(arg: &str) -> (r: String)
    ensures
        r@ == unix_quote_spec(arg@),
{
    let v = string_to_chars(arg);
    let n = v.len();
    let mut plain = n > 0;
    let mut i: usize = 0;
    while i < n
        invariant
            n == v@.len(),
            i <= n,
            plain == (n > 0 && (forall|j: int| 0 <= j < i ==> unix_safe_char(#[trigger] v@[j]))
                && (i > 0 ==> v@[0] != '-')),
        decreases n - i,
    {
        let c = v[i];
        if char_is_space_or_quote(c) {
            plain = false;
        }
        if i == 0 && c == '-' {
            plain = false;
        }
        i = i + 1;
    }
    if plain {
        proof {
            assert(unix_plain(v@));
        }
        return chars_to_string(&v);
    }
    proof {
        assert(!unix_plain(v@));
    }
    let mut out: Vec<char> = Vec::new();
    out.push('\'');
    let ghost base: Seq<char> = seq!['\''];
    proof {
        assert(out@ =~= base);
        assert(v@.skip(0) =~= v@);
        assert(unix_quoted_body(v@) == unix_quoted_body(v@.skip(0)));
    }
    let mut k: usize = 0;
    while k < n
        invariant
            n == v@.len(),
            k <= n,
            base + unix_quoted_body(v@) == out@ + unix_quoted_body(v@.skip(k as int)),
        decreases n - k,
    {
        let ghost oldout = out@;
        let c = v[k];
        if c == '\'' {
            out.push('\'');
            out.push('\\');
            out.push('\'');
            out.push('\'');
            proof {
                assert(out@ =~= oldout + seq!['\'', '\\', '\'', '\'']);
            }
        } else {
            out.push(c);
            proof {
                assert(out@ =~= oldout + seq![v@[k as int]]);
            }
        }
        proof {
            assert(v@.skip(k as int).drop_first() =~= v@.skip(k + 1));
            assert(v@.skip(k as int)[0] == v@[k as int]);
            assert(unix_quoted_body(v@.skip(k as int)) == (if v@[k as int] == '\'' {
                seq!['\'', '\\', '\'', '\'']
            } else {
                seq![v@[k as int]]
            }) + unix_quoted_body(v@.skip(k + 1)));
            assert(oldout + ((if v@[k as int] == '\'' {
                seq!['\'', '\\', '\'', '\'']
            } else {
                seq![v@[k as int]]
            }) + unix_quoted_body(v@.skip(k + 1))) =~= out@ + unix_quoted_body(v@.skip(k + 1)));
        }
        k = k + 1;
    }
    out.push('\'');
    proof {
        assert(unix_quoted_body(v@.skip(n as int)).len() == 0);
        assert(base + unix_quoted_body(v@) + Seq::<char>::empty() =~= base + unix_quoted_body(v@));
        assert(out@ =~= seq!['\''] + unix_quoted_body(v@) + seq!['\'']);
        assert(out@ =~= unix_quote_spec(v@));
    }
    chars_to_string(&out)
}

fn char_is_space_or_quote(c: char) -> (r: bool)
    ensures
        r == !unix_safe_char(c),
{
    c == ' ' || c == '\t' || c == '\n' || c == '\r' || c == '"' || c == '\''
}

/// Arguments that pass through unchanged on Windows: no spaces or double
/// quotes, and not dash-led.
pub open spec fn windows_plain(s: Seq<char>) -> bool {
    &&& forall|i: int| 0 <= i < s.len() ==> (#[trigger] s[i]) != ' ' && s[i] != '"'
    &&& !(s.len() > 0 && s[0] == '-')
}

/// The double-quoted form: every inner `"` becomes `\"`.
pub open spec fn windows_quoted_body(s: Seq<char>) -> Seq<char>
    decreases s.len(),
{
    if s.len() == 0 {
        Seq::empty()
    } else {
        (if s[0] == '"' {
            seq!['\\', '"']
        } else {
            seq![s[0]]
        }) + windows_quoted_body(s.drop_first())
    }
}

/// What the Windows quoter returns for any argument.
pub open spec fn windows_quote_spec(s: Seq<char>) -> Seq<char> {
    if windows_plain(s) {
        s
    } else {
        seq!['"'] + windows_quoted_body(s) + seq!['"']
    }
}

/// Quote one argument for the Windows shell.
pub fn quote_arg_windows(arg: &str) -> (r: String)
    ensures
        r@ == windows_quote_spec(arg@),
{
    let v = string_to_chars(arg);
    let n = v.len();
    let mut plain = true;
    let mut i: usize = 0;
    while i < n
        invariant
            n == v@.len(),
            i <= n,
            plain == ((forall|j: int| 0 <= j < i ==> (#[trigger] v@[j]) != ' ' && v@[j] != '"')
                && !(i > 0 && v@[0] == '-')),
        decreases n - i,
    {
        let c = v[i];
        if c == ' ' || c == '"' {
            plain = false;
        }
        if i == 0 && c == '-' {
            plain = false;
        }
        i = i + 1;
    }
    if plain {
        proof {
            assert(windows_plain(v@));
        }
        return chars_to_string(&v);
    }
    proof {
        assert(!windows_plain(v@));
    }
    let mut out: Vec<char> = Vec::new();
    out.push('"');
    let ghost base: Seq<char> = seq!['"'];
    proof {
        assert(out@ =~= base);
        assert(v@.skip(0) =~= v@);
        assert(windows_quoted_body(v@) == windows_quoted_body(v@.skip(0)));
    }
    let mut k: usize = 0;
    while k < n
        invariant
            n == v@.len(),
            k <= n,
            base + windows_quoted_body(v@) == out@ + windows_quoted_body(v@.skip(k as int)),
        decreases n - k,
    {
        let ghost oldout = out@;
        let c = v[k];
        if c == '"' {
            out.push('\\');
            out.push('"');
            proof {
                assert(out@ =~= oldout + seq!['\\', '"']);
            }
        } else {
            out.push(c);
            proof {
                assert(out@ =~= oldout + seq![v@[k as int]]);
            }
        }
        proof {
            assert(v@.skip(k as int).drop_first() =~= v@.skip(k + 1));
            assert(v@.skip(k as int)[0] == v@[k as int]);
            assert(windows_quoted_body(v@.skip(k as int)) == (if v@[k as int] == '"' {
                seq!['\\', '"']
            } else {
                seq![v@[k as int]]
            }) + windows_quoted_body(v@.skip(k + 1)));
            assert(oldout + ((if v@[k as int] == '"' {
                seq!['\\', '"']
            } else {
                seq![v@[k as int]]
            }) + windows_quoted_body(v@.skip(k + 1))) =~= out@ + windows_quoted_body(
                v@.skip(k + 1),
            ));
        }
        k = k + 1;
    }
    out.push('"');
    proof {
        assert(windows_quoted_body(v@.skip(n as int)).len() == 0);
        assert(base + windows_quoted_body(v@) + Seq::<char>::empty() =~= base
            + windows_quoted_body(v@));
        assert(out@ =~= seq!['"'] + windows_quoted_body(v@) + seq!['"']);
        assert(out@ =~= windows_quote_spec(v@));
    }
    chars_to_string(&out)
}

/// Quote one argument for the shell of the named platform.
pub fn quote_arg_for_shell(arg: &str, windows: bool) -> (r: String)
    ensures
        r@ == (if windows {
            windows_quote_spec(arg@)
        } else {
            unix_quote_spec(arg@)
        }),
{
    if windows {
        quote_arg_windows(arg)
    } else {
        quote_arg_unix(arg)
    }
}

/// The script line with each pass-through argument quoted and appended.
pub open spec fn script_command_spec(script: Seq<char>, args: Seq<Seq<char>>, windows: bool) -> Seq<
    char,
>
    decreases args.len(),
{
    if args.len() == 0 {
        script
    } else {
        script_command_spec(
            script + seq![' '] + (if windows {
                windows_quote_spec(args[0])
            } else {
                unix_quote_spec(args[0])
            }),
            args.drop_first(),
            windows,
        )
    }
}

/// Append the quoted pass-through arguments to the script line.
pub fn build_script_command(script: &str, pass_args: &Vec<String>, windows: bool) -> (r: String)
    ensures
        r@ == script_command_spec(
            script@,
            pass_args@.map_values(|a: String| a@),
            windows,
        ),
{
    let ghost argviews = pass_args@.map_values(|a: String| a@);
    let mut line = String::new();
    line.append(script);
    let n = pass_args.len();
    let mut i: usize = 0;
    proof {
        assert(line@ =~= script@);
        assert(argviews.skip(0) =~= argviews);
    }
    while i < n
        invariant
            n == argviews.len(),
            argviews == pass_args@.map_values(|a: String| a@),
            i <= n,
            script_command_spec(script@, argviews, windows) == script_command_spec(
                line@,
                argviews.skip(i as int),
                windows,
            ),
        decreases n - i,
    {
        let q = quote_arg_for_shell(pass_args[i].as_str(), windows);
        line.append(" ");
        line.append(q.as_str());
        proof {
            reveal_strlit(" ");
            assert(" "@ =~= seq![' ']);
            assert(argviews.skip(i as int)[0] == argviews[i as int]);
            assert(argviews[i as int] == pass_args@[i as int]@);
            assert(argviews.skip(i as int).drop_first() =~= argviews.skip(i + 1));
        }
        i = i + 1;
    }
    proof {
        assert(argviews.skip(n as int).len() == 0);
    }
    line
}

} // verus!
