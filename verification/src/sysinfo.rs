use vstd::prelude::*;

use crate::text::chars_of;
use crate::text::decimal;
use crate::text::decimal_text;
use crate::text::fields;
use crate::text::has_prefix;
use crate::text::join;
use crate::text::join_strings;
use crate::text::lines;
use crate::text::split_fields;
use crate::text::split_lines;
use crate::text::starts_with;
use crate::text::strings_view;
use crate::text::trim;
use crate::text::trim_bounds;
use crate::text::trim_class;
use crate::text::trim_prefix_copies;
use crate::text::trim_start_matches;
use crate::text::trimmed;
use crate::text::law_trim_removes_class;
use crate::text::CharClass;

verus! {

/// The characters of an optional text.
pub open spec fn opt_chars(o: Option<&str>) -> Option<Seq<char>> {
    match o {
        Some(s) => Some(s@),
        None => None,
    }
}

/// The first of the lines that starts with `p`.
pub open spec fn first_with_prefix(ls: Seq<Seq<char>>, p: Seq<char>) -> Option<Seq<char>>
    decreases ls.len(),
{
    if ls.len() == 0 {
        None
    } else if starts_with(ls[0], p) {
        Some(ls[0])
    } else {
        first_with_prefix(ls.drop_first(), p)
    }
}

/// The distribution name given by the text of `/etc/os-release`: the first
/// line that starts with `PRETTY_NAME=`, without every leading copy of that
/// key and without surrounding double quotes; `Unknown Linux` when the file
/// could not be read or has no such line.
pub open spec fn distro_name(os_release: Option<Seq<char>>) -> Seq<char> {
    match os_release {
        Some(text) => match first_with_prefix(lines(text), "PRETTY_NAME="@) {
            Some(line) => trim_class(
                trim_start_matches(line, "PRETTY_NAME="@),
                CharClass::Quote,
            ),
            None => "Unknown Linux"@,
        },
        None => "Unknown Linux"@,
    }
}

/// Reads the distribution name out of the text of `/etc/os-release`
/// (`None` when it could not be read).
pub fn detect_distro(os_release: Option<&str>) -> (name: String)
    ensures
        name@ == distro_name(opt_chars(os_release)),
{
    match os_release {
        None => "Unknown Linux".to_owned(),
        Some(text) => {
            let ls = split_lines(text);
            let key = chars_of("PRETTY_NAME=");
            proof {
                reveal_strlit("PRETTY_NAME=");
            }
            let ghost all = strings_view(ls@);
            let mut i: usize = 0;
            proof {
                assert(all.skip(0) =~= all);
            }
            while i < ls.len()
                invariant
                    i <= ls.len(),
                    all == strings_view(ls@),
                    all == lines(text@),
                    opt_chars(os_release) == Some(text@),
                    key@ == "PRETTY_NAME="@,
                    key@.len() > 0,
                    first_with_prefix(all.skip(i as int), key@) == first_with_prefix(all, key@),
                decreases ls.len() - i,
            {
                let line = chars_of(ls[i].as_str());
                proof {
                    assert(all.skip(i as int)[0] == line@);
                    assert(all.skip(i as int).drop_first() =~= all.skip(i + 1));
                }
                if has_prefix(&line, &key) {
                    let start = trim_prefix_copies(&line, 0, &key);
                    let (a, b) = trim_bounds(&line, start, line.len(), CharClass::Quote);
                    proof {
                        assert(line@.skip(0) =~= line@);
                        assert(line@.skip(start as int) =~= line@.subrange(
                            start as int,
                            line@.len() as int,
                        ));
                    }
                    proof {
                        assert(first_with_prefix(all.skip(i as int), key@) == Some(line@));
                        assert(trim_start_matches(line@, key@) == line@.skip(start as int));
                    }
                    return crate::text::string_of_range(&line, a, b);
                }
                i = i + 1;
            }
            proof {
                assert(all.skip(i as int) =~= Seq::<Seq<char>>::empty());
            }
            "Unknown Linux".to_owned()
        },
    }
}

/// The kernel release shown: the trimmed output of `uname -r`, or `unknown`
/// when it could not be run.
pub open spec fn kernel_release(output: Option<Seq<char>>) -> Seq<char> {
    match output {
        Some(text) => trim(text),
        None => "unknown"@,
    }
}

/// The kernel release shown for the output of `uname -r` (`None` when the
/// command could not be run).
pub fn kernel_text(output: Option<&str>) -> (r: String)
    ensures
        r@ == kernel_release(opt_chars(output)),
{
    match output {
        Some(text) => trimmed(text),
        None => "unknown".to_owned(),
    }
}

/// Uptime in whole hours and the minutes past the last whole hour.
pub open spec fn uptime_parts(secs: nat) -> (nat, nat) {
    (secs / 3600, (secs % 3600) / 60)
}

/// The uptime shown: `<hours>h <minutes>m`, or `unknown`.
pub open spec fn uptime_view(secs: Option<u64>) -> Seq<char> {
    match secs {
        Some(t) => decimal(uptime_parts(t as nat).0) + "h "@ + decimal(uptime_parts(t as nat).1)
            + "m"@,
        None => "unknown"@,
    }
}

/// The uptime shown for a number of whole seconds (`None` when it could not
/// be read).
pub fn uptime_text(secs: Option<u64>) -> (r: String)
    ensures
        r@ == uptime_view(secs),
{
    match secs {
        Some(t) => {
            let mut r = decimal_text(t / 3600);
            r.append("h ");
            let m = decimal_text((t % 3600) / 60);
            r.append(m.as_str());
            r.append("m");
            r
        },
        None => "unknown".to_owned(),
    }
}

/// The first whitespace-separated field of a text, if it has one.
pub fn first_field(s: &str) -> (r: Option<String>)
    ensures
        r is Some <==> fields(s@).len() > 0,
        r matches Some(f) ==> f@ == fields(s@)[0],
{
    let mut fs = split_fields(s);
    if fs.len() == 0 {
        None
    } else {
        proof {
            assert(strings_view(fs@)[0] == fs@[0]@);
        }
        Some(fs.swap_remove(0))
    }
}

/// The disk usage shown for the output of `df`: the fields of its second
/// line joined by `"  /  "`, or `unavailable` when there is no such line or
/// the command could not be run.
pub open spec fn disk_summary(output: Option<Seq<char>>) -> Seq<char> {
    match output {
        Some(text) => if lines(text).len() > 1 {
            join(fields(lines(text)[1]), "  /  "@)
        } else {
            "unavailable"@
        },
        None => "unavailable"@,
    }
}

/// The disk usage shown for the output of `df -h --output=used,avail,pcent /`
/// (`None` when the command could not be run).
pub fn disk_text(output: Option<&str>) -> (r: String)
    ensures
        r@ == disk_summary(opt_chars(output)),
{
    match output {
        Some(text) => {
            let ls = split_lines(text);
            if ls.len() > 1 {
                proof {
                    assert(strings_view(ls@)[1] == ls@[1]@);
                }
                let fs = split_fields(ls[1].as_str());
                join_strings(&fs, "  /  ")
            } else {
                "unavailable".to_owned()
            }
        },
        None => "unavailable".to_owned(),
    }
}


/// The uptime's hours and minutes are the whole hours and the whole minutes
/// after them: `h * 3600 + m * 60 <= secs < h * 3600 + m * 60 + 60`, with
/// fewer than 60 minutes.
pub proof fn law_uptime_parts(secs: nat)
    ensures
        uptime_parts(secs).1 < 60,
        uptime_parts(secs).0 * 3600 + uptime_parts(secs).1 * 60 <= secs,
        secs < uptime_parts(secs).0 * 3600 + uptime_parts(secs).1 * 60 + 60,
{
    let h = secs / 3600;
    let r = secs % 3600;
    let m = r / 60;
    assert(h * 3600 + r == secs) by (nonlinear_arith)
        requires
            h == secs / 3600,
            r == secs % 3600,
    ;
    assert(m * 60 <= r < m * 60 + 60 && m < 60) by (nonlinear_arith)
        requires
            m == r / 60,
            r < 3600,
    ;
}

/// The distribution name shown never starts or ends with a double quote.
pub proof fn law_distro_unquoted(os_release: Option<Seq<char>>)
    ensures
        distro_name(os_release).len() > 0 ==> distro_name(os_release)[0] != '"',
        distro_name(os_release).len() > 0 ==> distro_name(os_release).last() != '"',
{
    reveal_strlit("Unknown Linux");
    match os_release {
        Some(text) => match first_with_prefix(lines(text), "PRETTY_NAME="@) {
            Some(line) => law_trim_removes_class(
                trim_start_matches(line, "PRETTY_NAME="@),
                CharClass::Quote,
            ),
            None => {},
        },
        None => {},
    }
}

/// The kernel release shown never starts or ends with whitespace.
pub proof fn law_kernel_trimmed(output: Option<Seq<char>>)
    ensures
        kernel_release(output).len() > 0 ==> !crate::text::is_space(kernel_release(output)[0]),
        kernel_release(output).len() > 0 ==> !crate::text::is_space(kernel_release(output).last()),
{
    reveal_strlit("unknown");
    match output {
        Some(text) => law_trim_removes_class(text, CharClass::Space),
        None => {},
    }
}


/// What is shown when a source cannot be read: `Unknown Linux` for the
/// distribution, `unknown` for the kernel and the uptime, `unavailable`
/// for the disk.
pub proof fn law_fallback_texts()
    ensures
        distro_name(None) == "Unknown Linux"@,
        kernel_release(None) == "unknown"@,
        uptime_view(None) == "unknown"@,
        disk_summary(None) == "unavailable"@,
{
}

/// The uptime reads `<hours>h <minutes>m`: the whole hours (3600 seconds
/// each) in decimal, `h `, the whole minutes (60 seconds each) past them in
/// decimal, `m`.
pub proof fn law_uptime_text(secs: u64)
    ensures
        uptime_view(Some(secs)) == decimal((secs / 3600) as nat) + "h "@ + decimal(
            ((secs % 3600) / 60) as nat,
        ) + "m"@,
{
}

/// The distribution name comes from the first line that starts with
/// `PRETTY_NAME=`, without that key (repeated) and surrounding double
/// quotes; with no such line it is `Unknown Linux`.
pub proof fn law_distro_from_pretty_name(text: Seq<char>)
    ensures
        first_with_prefix(lines(text), "PRETTY_NAME="@) is None ==> distro_name(Some(text))
            == "Unknown Linux"@,
        first_with_prefix(lines(text), "PRETTY_NAME="@) matches Some(line) ==> distro_name(
            Some(text),
        ) == trim_class(trim_start_matches(line, "PRETTY_NAME="@), CharClass::Quote),
{
}

/// The disk usage is the second line of the output, its fields joined by
/// `"  /  "`.
pub proof fn law_disk_second_line(text: Seq<char>)
    ensures
        lines(text).len() >= 2 ==> disk_summary(Some(text)) == join(
            fields(lines(text)[1]),
            "  /  "@,
        ),
        lines(text).len() < 2 ==> disk_summary(Some(text)) == "unavailable"@,
{
}

} // verus!
