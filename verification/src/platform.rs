//! The platform filter: `os` and `cpu` lists are evaluated against the
//! host's tokens. A `!x` entry forbids host `x`; unprefixed entries form an
//! allow set; an empty list accepts every host.

use vstd::prelude::*;

verus! {

use crate::strutil::string_to_chars;
use crate::lockfile::vstrs;

/// The entry denies the given host.
pub open spec fn denies(entry: Seq<char>, host: Seq<char>) -> bool {
    entry.len() > 0 && entry[0] == '!' && entry.drop_first() == host
}

/// The entry names an allowed platform (it has no `!` prefix).
pub open spec fn allow_entry(entry: Seq<char>) -> bool {
    !(entry.len() > 0 && entry[0] == '!')
}

/// Whether a list accepts the host: the host is not denied, and either no
/// allow entries exist or the host is among them.
pub open spec fn list_allows(list: Seq<Seq<char>>, host: Seq<char>) -> bool {
    if list.len() == 0 {
        true
    } else {
        &&& !(exists|i: int| 0 <= i < list.len() && denies(#[trigger] list[i], host))
        &&& ((forall|i: int| 0 <= i < list.len() ==> !allow_entry(#[trigger] list[i])) || (exists|
            i: int,
        |
            0 <= i < list.len() && allow_entry(#[trigger] list[i]) && list[i] == host))
    }
}

/// Both lists accept the host.
pub open spec fn platform_ok(
    os_list: Seq<Seq<char>>,
    cpu_list: Seq<Seq<char>>,
    host_os: Seq<char>,
    host_cpu: Seq<char>,
) -> bool {
    list_allows(os_list, host_os) && list_allows(cpu_list, host_cpu)
}

/// Evaluate one list against a host token.
fn eval_list(list: &Vec<String>, host: &str) -> (r: bool)
    ensures
        r == list_allows(vstrs(list@), host@),
{
    let n = list.len();
    if n == 0 {
        return true;
    }
    let hostv = string_to_chars(host);
    let mut blocked = false;
    let mut saw_allow = false;
    let mut allowed = false;
    let ghost lv = vstrs(list@);
    let mut i: usize = 0;
    while i < n
        invariant
            n == lv.len(),
            lv == vstrs(list@),
            hostv@ == host@,
            i <= n,
            blocked == (exists|j: int| 0 <= j < i && denies(#[trigger] lv[j], host@)),
            saw_allow == (exists|j: int| 0 <= j < i && allow_entry(#[trigger] lv[j])),
            allowed == (exists|j: int|
                0 <= j < i && allow_entry(#[trigger] lv[j]) && lv[j] == host@),
        decreases n - i,
    {
        let entry = string_to_chars(list[i].as_str());
        proof {
            assert(lv[i as int] == list@[i as int]@);
        }
        if entry.len() > 0 && entry[0] == '!' {
            // deny entry: does it name the host?
            let mut stripped: Vec<char> = Vec::new();
            let mut k: usize = 1;
            while k < entry.len()
                invariant
                    1 <= k <= entry@.len(),
                    stripped@ =~= entry@.subrange(1, k as int),
                decreases entry@.len() - k,
            {
                stripped.push(entry[k]);
                k = k + 1;
                proof {
                    assert(stripped@ =~= entry@.subrange(1, k as int));
                }
            }
            proof {
                assert(stripped@ =~= entry@.drop_first());
            }
            let same = crate::strutil::chars_eq(&stripped, &hostv);
            if same {
                blocked = true;
                proof {
                    assert(denies(lv[i as int], host@));
                }
            } else {
                proof {
                    assert(!denies(lv[i as int], host@));
                }
            }
            proof {
                assert(!allow_entry(lv[i as int]));
            }
        } else {
            saw_allow = true;
            proof {
                assert(allow_entry(lv[i as int]));
            }
            if crate::strutil::str_eq(list[i].as_str(), host) {
                allowed = true;
                proof {
                    assert(lv[i as int] == host@);
                }
            } else {
                proof {
                    assert(lv[i as int] != host@);
                }
            }
            proof {
                assert(!denies(lv[i as int], host@));
            }
        }
        i = i + 1;
    }
    !blocked && (!saw_allow || allowed)
}

/// Evaluate a package's `os` and `cpu` restrictions against the host's
/// tokens.
pub fn platform_supported(
    os_list: &Vec<String>,
    cpu_list: &Vec<String>,
    host_os: &str,
    host_cpu: &str,
) -> (r: bool)
    ensures
        r == platform_ok(vstrs(os_list@), vstrs(cpu_list@), host_os@, host_cpu@),
{
    let os_ok = eval_list(os_list, host_os);
    let cpu_ok = eval_list(cpu_list, host_cpu);
    os_ok && cpu_ok
}

/// Law: a list with a `!` entry naming the host rejects that host, whatever
/// else it holds.
pub proof fn lemma_deny_entry_rejects(list: Seq<Seq<char>>, host: Seq<char>, i: int)
    requires
        0 <= i < list.len(),
        denies(list[i], host),
    ensures
        !list_allows(list, host),
{
}

/// Law: a list with at least one allow entry, none of which names the host,
/// rejects that host.
pub proof fn lemma_absent_from_allow_rejects(list: Seq<Seq<char>>, host: Seq<char>, i: int)
    requires
        0 <= i < list.len(),
        allow_entry(list[i]),
        forall|j: int| 0 <= j < list.len() && allow_entry(#[trigger] list[j]) ==> list[j] != host,
    ensures
        !list_allows(list, host),
{
}

/// Law: an empty pair of lists accepts every host.
pub proof fn lemma_empty_lists_accept(host_os: Seq<char>, host_cpu: Seq<char>)
    ensures
        platform_ok(Seq::empty(), Seq::empty(), host_os, host_cpu),
{
}

} // verus!
