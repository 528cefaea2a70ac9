//! File names: the ones that mods come with and the ones that the manager makes up.
use crate::text;
use crate::text::Separator;
use crate::version;
use vstd::prelude::*;

verus! {

/// The position of the last `.`; -1 where there is none.
pub open spec fn last_dot(name: Seq<char>) -> int
    decreases name.len(),
{
    if name.len() == 0 {
        -1
    } else if name.last() == '.' {
        name.len() - 1
    } else {
        last_dot(name.drop_last())
    }
}

/// The name has an extension: a `.` that is not its first character. `..` has none.
pub open spec fn has_extension(name: Seq<char>) -> bool {
    name != ".."@ && last_dot(name) > 0
}

/// What stands behind the last `.` of a file name.
pub open spec fn extension(name: Seq<char>) -> Option<Seq<char>> {
    if has_extension(name) {
        Some(name.skip(last_dot(name) + 1))
    } else {
        None
    }
}

/// A file name without its extension.
pub open spec fn stem(name: Seq<char>) -> Seq<char> {
    if has_extension(name) {
        name.take(last_dot(name))
    } else {
        name
    }
}

proof fn lemma_last_dot(name: Seq<char>, i: int)
    requires
        -1 <= i < name.len(),
        i >= 0 ==> name[i] == '.',
        forall|j: int| i < j < name.len() ==> #[trigger] name[j] != '.',
    ensures
        last_dot(name) == i,
    decreases name.len(),
{
    if name.len() > 0 && i < name.len() - 1 {
        assert(name[name.len() - 1] != '.');
        lemma_last_dot(name.drop_last(), i);
    }
}

/// At the last `.` there is one.
pub proof fn lemma_dot_at(name: Seq<char>)
    ensures
        -1 <= last_dot(name) < name.len(),
        last_dot(name) >= 0 ==> name[last_dot(name)] == '.',
    decreases name.len(),
{
    if name.len() > 0 && name.last() != '.' {
        lemma_dot_at(name.drop_last());
    }
}

/// Where the last `.` of an extension-carrying name stands.
fn extension_dot(name: &[char]) -> (r: Option<usize>)
    ensures
        match r {
            Some(i) => has_extension(name@) && last_dot(name@) == i && i < name@.len(),
            None => !has_extension(name@),
        },
{
    proof {
        reveal_strlit("..");
    }
    if name.len() == 2 && name[0] == '.' && name[1] == '.' {
        assert(name@ =~= ".."@);
        return None;
    }
    assert(name@ != ".."@) by {
        if name@ == ".."@ {
            assert(name@[0] == '.' && name@[1] == '.');
        }
    }
    let mut n: usize = name.len();
    while n > 0
        invariant
            n <= name@.len(),
            name@ != ".."@,
            forall|j: int| n <= j < name@.len() ==> #[trigger] name@[j] != '.',
        decreases n,
    {
        n = n - 1;
        if name[n] == '.' {
            proof {
                lemma_last_dot(name@, n as int);
            }
            return if n > 0 {
                Some(n)
            } else {
                None
            };
        }
    }
    proof {
        lemma_last_dot(name@, -1);
    }
    None
}

fn chars_from(name: &[char], from: usize, to: usize) -> (r: String)
    requires
        from <= to <= name@.len(),
    ensures
        r@ == name@.subrange(from as int, to as int),
{
    let mut r = String::new();
    assert(name@.subrange(from as int, from as int) =~= Seq::empty());
    for i in from..to
        invariant
            from <= to <= name@.len(),
            r@ == name@.subrange(from as int, i as int),
    {
        r.push(name[i]);
        assert(name@.subrange(from as int, i + 1) =~= name@.subrange(from as int, i as int).push(
            name@[i as int],
        ));
    }
    r
}

/// The extension of a file name.
pub fn extension_of(name: &str) -> (r: Option<String>)
    ensures
        text::text_opt(r) == extension(name@),
{
    let x = text::chars_of(name);
    match extension_dot(x.as_slice()) {
        Some(i) => {
            let n: usize = x.len();
            Some(chars_from(x.as_slice(), i + 1, n))
        },
        None => None,
    }
}

/// A file name without its extension.
pub fn stem_of(name: &str) -> (r: String)
    ensures
        r@ == stem(name@),
{
    let x = text::chars_of(name);
    match extension_dot(x.as_slice()) {
        Some(i) => {
            let r = chars_from(x.as_slice(), 0, i);
            assert(r@ =~= name@.take(i as int));
            r
        },
        None => text::owned(name),
    }
}

/// Only forward slashes separate the components of the path, on every platform: it holds no
/// backslash and no colon, and does not start with two slashes.
pub open spec fn portable(path: Seq<char>) -> bool {
    &&& forall|i: int| 0 <= i < path.len() ==> #[trigger] path[i] != '\\' && path[i] != ':'
    &&& !(path.len() >= 2 && path[0] == '/' && path[1] == '/')
}

/// The file name at the end of a portable path, without its extension. A path that ends in `..`
/// or has no component names no file.
pub open spec fn portable_stem(path: Seq<char>) -> Option<Seq<char>> {
    let ps = text::pieces(path, Separator::Slash);
    if ps.len() == 0 || ps.last() == ".."@ {
        None
    } else {
        Some(stem(ps.last()))
    }
}

/// The path ends in a `.` component, which is not its file name.
pub open spec fn ends_in_dot(path: Seq<char>) -> bool {
    let ps = text::pieces(path, Separator::Slash);
    ps.len() > 0 && ps.last() == "."@
}

/// The path starts with two separators, which on some platforms name a machine.
pub open spec fn names_machine(path: Seq<char>) -> bool {
    path.len() >= 2 && (path[0] == '/' || path[0] == '\\') && (path[1] == '/' || path[1] == '\\')
}

pub fn is_machine(path: &str) -> (r: bool)
    ensures
        r == names_machine(path@),
{
    let x = text::chars_of(path);
    x.len() >= 2 && (x[0] == '/' || x[0] == '\\') && (x[1] == '/' || x[1] == '\\')
}

/// What stands behind the last `/`, `\` or `:`. On every platform the last component of the path
/// ends with it.
pub open spec fn last_name(path: Seq<char>) -> Seq<char>
    decreases path.len(),
{
    if path.len() == 0 || path.last() == '/' || path.last() == '\\' || path.last() == ':' {
        Seq::empty()
    } else {
        last_name(path.drop_last()).push(path.last())
    }
}

/// There is no `.` in the text.
pub open spec fn no_dot(s: Seq<char>) -> bool {
    forall|i: int| 0 <= i < s.len() ==> #[trigger] s[i] != '.'
}

/// The path ends in the name of a file, on every platform: a name that does not start with a `.`,
/// and has one unless there is none in the whole path.
pub open spec fn ends_in_name(path: Seq<char>) -> bool {
    let name = last_name(path);
    !names_machine(path) && name.len() > 0 && name[0] != '.' && (!no_dot(name) || no_dot(path))
}

/// `std::path::Path::file_stem`: the last component of the path without its extension. What
/// separates components depends on the platform; stated is what holds on all of them: for portable
/// paths that do not end in a `.` component the stem itself, and for every path that ends in the
/// name of a file what the stem ends with. Of other paths nothing is said.
#[verifier::external_body]
fn file_stem(path: &str) -> (r: Option<String>)
    ensures
        portable(path@) && !ends_in_dot(path@) ==> text::text_opt(r) == portable_stem(path@),
        ends_in_name(path@) ==> r is Some && stem(last_name(path@)).is_suffix_of(r->0@),
{
    std::path::Path::new(path).file_stem().and_then(|s| s.to_str()).map(|s| s.to_string())
}

/// The name of a mod whose archive has the given file stem; "mod" where there is no stem.
pub fn mod_name_or_default(stem: Option<String>) -> (r: String)
    ensures
        r@ == match stem {
            Some(s) => s@,
            None => "mod"@,
        },
{
    match stem {
        Some(s) => s,
        None => text::owned("mod"),
    }
}

/// The name of a mod, by the file name of its archive.
pub fn mod_name_from_zip(zip_path: &str) -> (r: String)
    ensures
        portable(zip_path@) && !ends_in_dot(zip_path@) ==> r@ == match portable_stem(zip_path@) {
            Some(s) => s,
            None => "mod"@,
        },
        ends_in_name(zip_path@) ==> stem(last_name(zip_path@)).is_suffix_of(r@),
{
    mod_name_or_default(file_stem(zip_path))
}

/// What `char::is_alphanumeric` says of a character that is not ASCII.
pub uninterp spec fn unicode_alphanumeric(c: char) -> bool;

/// `char::is_alphanumeric` is a function of the character. Among the ASCII characters it holds
/// of the letters and the digits.
pub assume_specification[ char::is_alphanumeric ](c: char) -> (r: bool)
    ensures
        c <= '\u{7f}' ==> r == ascii_alphanumeric(c),
        c > '\u{7f}' ==> r == unicode_alphanumeric(c),
;

pub open spec fn ascii_alphanumeric(c: char) -> bool {
    ('0' <= c && c <= '9') || ('a' <= c && c <= 'z') || ('A' <= c && c <= 'Z')
}

pub open spec fn alphanumeric(c: char) -> bool {
    if c <= '\u{7f}' {
        ascii_alphanumeric(c)
    } else {
        unicode_alphanumeric(c)
    }
}

/// The character may stand in a file name that the manager makes up.
pub open spec fn is_safe(c: char) -> bool {
    alphanumeric(c) || c == '-' || c == '_'
}

/// `name` with every character that may not stand in a file name turned into `_`.
pub open spec fn sanitized(name: Seq<char>) -> Seq<char> {
    name.map_values(
        |c: char|
            if is_safe(c) {
                c
            } else {
                '_'
            },
    )
}

pub fn sanitize(name: &str) -> (r: String)
    ensures
        r@ == sanitized(name@),
{
    let x = text::chars_of(name);
    let ghost want = sanitized(name@);
    let mut r = String::new();
    for i in 0..x.len()
        invariant
            x@ == name@,
            want == sanitized(name@),
            r@ == want.take(i as int),
    {
        let c = x[i];
        r.push(
            if c.is_alphanumeric() || c == '-' || c == '_' {
                c
            } else {
                '_'
            },
        );
        assert(want.take(i + 1) =~= want.take(i as int).push(want[i as int]));
    }
    assert(want.take(want.len() as int) =~= want);
    r
}

/// A sanitised name holds nothing but letters, digits, `-` and `_`, so no `.` and no separator of
/// paths, and sanitising it again changes nothing.
pub proof fn law_sanitized_names_are_safe(name: Seq<char>)
    ensures
        sanitized(name).len() == name.len(),
        forall|i: int|
            0 <= i < name.len() ==> is_safe(#[trigger] sanitized(name)[i]) && sanitized(name)[i]
                != '/' && sanitized(name)[i] != '\\' && sanitized(name)[i] != '.'
                && sanitized(name)[i] != ':',
        sanitized(sanitized(name)) == sanitized(name),
{
    assert(sanitized(sanitized(name)) =~= sanitized(name));
}

/// The decimal digit of a value below ten.
pub open spec fn digit(n: nat) -> char {
    (n as u8 + '0' as u8) as char
}

/// A number in decimal, without leading zeros.
pub open spec fn decimal(n: nat) -> Seq<char>
    decreases n,
{
    if n < 10 {
        seq![digit(n)]
    } else {
        decimal(n / 10).push(digit(n % 10))
    }
}

/// A number in decimal.
pub fn decimal_text(n: u128) -> (r: String)
    ensures
        r@ == decimal(n as nat),
    decreases n,
{
    if n < 10 {
        let mut r = String::new();
        r.push((n as u8 + 48u8) as char);
        assert(r@ =~= seq![digit(n as nat)]);
        r
    } else {
        let mut r = decimal_text(n / 10);
        r.push(((n % 10) as u8 + 48u8) as char);
        r
    }
}

/// The name of a temporary folder that an archive is unpacked into.
pub fn extract_dir_name(now: u128, seq: u64) -> (r: String)
    ensures
        r@ == "sptmod-extract-"@ + decimal(now as nat) + "-"@ + decimal(seq as nat),
{
    let mut r = text::owned("sptmod-extract-");
    r.append(decimal_text(now).as_str());
    r.append("-");
    r.append(decimal_text(seq as u128).as_str());
    r
}

/// The name of a temporary file that a dropped archive is streamed into.
pub fn drop_file_name(now: u128, seq: u64, name: &str) -> (r: String)
    ensures
        r@ == "kdrop-"@ + decimal(now as nat) + "-"@ + decimal(seq as nat) + "-"@ + sanitized(
            name@,
        ),
{
    let mut r = text::owned("kdrop-");
    r.append(decimal_text(now).as_str());
    r.append("-");
    r.append(decimal_text(seq as u128).as_str());
    r.append("-");
    r.append(sanitize(name).as_str());
    r
}

/// The name of a temporary file that a download goes into.
pub fn download_file_name(now: u128, seq: u64) -> (r: String)
    ensures
        r@ == "sptdl-"@ + decimal(now as nat) + "-"@ + decimal(seq as nat) + ".bin"@,
{
    let mut r = text::owned("sptdl-");
    r.append(decimal_text(now).as_str());
    r.append("-");
    r.append(decimal_text(seq as u128).as_str());
    r.append(".bin");
    r
}

/// The file name of the manifest of a mod installed at the time `now`.
pub fn manifest_file_name(mod_name: &str, now: u128) -> (r: String)
    ensures
        r@ == sanitized(mod_name@) + "-"@ + decimal(now as nat) + ".json"@,
{
    let mut r = sanitize(mod_name);
    r.append("-");
    r.append(decimal_text(now).as_str());
    r.append(".json");
    r
}

/// Milliseconds since the epoch, given the time that has passed since then; 0 on a clock that is
/// set before it.
pub fn now_millis(elapsed: Option<u128>) -> (r: u128)
    ensures
        r == match elapsed {
            Some(ms) => ms,
            None => 0,
        },
{
    match elapsed {
        Some(ms) => ms,
        None => 0,
    }
}

pub proof fn lemma_decimal_digits(n: nat)
    ensures
        decimal(n).len() > 0,
        forall|i: int| 0 <= i < decimal(n).len() ==> '0' <= #[trigger] decimal(n)[i] <= '9',
    decreases n,
{
    if n >= 10 {
        lemma_decimal_digits(n / 10);
    }
}

/// Different numbers are written differently.
pub proof fn law_decimal_is_unambiguous(a: nat, b: nat)
    requires
        decimal(a) == decimal(b),
    ensures
        a == b,
    decreases a,
{
    lemma_decimal_digits(a / 10);
    lemma_decimal_digits(b / 10);
    if a < 10 {
        assert(decimal(a).len() == 1);
        if b >= 10 {
            assert(decimal(b).len() > 1);
        }
        assert(decimal(a)[0] == digit(a));
    } else {
        if b < 10 {
            assert(decimal(a).len() > 1);
        }
        assert(decimal(a).drop_last() =~= decimal(a / 10));
        assert(decimal(b).drop_last() =~= decimal(b / 10));
        law_decimal_is_unambiguous(a / 10, b / 10);
        assert(decimal(a).last() == digit(a % 10));
        assert(decimal(b).last() == digit(b % 10));
    }
}

proof fn lemma_same_tail(a: Seq<char>, b: Seq<char>, c: Seq<char>, d: Seq<char>)
    requires
        a + "-"@ + b == c + "-"@ + d,
        forall|i: int| 0 <= i < b.len() ==> #[trigger] b[i] != '-',
        forall|i: int| 0 <= i < d.len() ==> #[trigger] d[i] != '-',
    ensures
        b == d,
{
    reveal_strlit("-");
    let x = a + "-"@ + b;
    let y = c + "-"@ + d;
    assert("-"@ =~= seq!['-']);
    assert(a.len() + 1 + b.len() == x.len());
    assert(c.len() + 1 + d.len() == y.len());
    if a.len() < c.len() {
        assert(y[c.len() as int] == '-');
        assert(x[c.len() as int] == b[c.len() - a.len() - 1]);
        assert(false);
    }
    if c.len() < a.len() {
        assert(x[a.len() as int] == '-');
        assert(y[a.len() as int] == d[a.len() - c.len() - 1]);
        assert(false);
    }
    assert forall|i: int| 0 <= i < b.len() implies b[i] == d[i] by {
        assert(x[a.len() + 1 + i] == b[i]);
        assert(y[c.len() + 1 + i] == d[i]);
    }
    assert(b =~= d);
}

/// Two extraction folders of one run of the program never share a name: the counter alone tells
/// them apart, whatever the clock says.
pub proof fn law_extract_dirs_are_distinct(now: u128, seq: u64, later: u128, next: u64)
    requires
        seq != next,
    ensures
        "sptmod-extract-"@ + decimal(now as nat) + "-"@ + decimal(seq as nat)
            != "sptmod-extract-"@ + decimal(later as nat) + "-"@ + decimal(next as nat),
{
    let a = "sptmod-extract-"@ + decimal(now as nat);
    let c = "sptmod-extract-"@ + decimal(later as nat);
    if a + "-"@ + decimal(seq as nat) == c + "-"@ + decimal(next as nat) {
        lemma_decimal_digits(seq as nat);
        lemma_decimal_digits(next as nat);
        lemma_same_tail(a, decimal(seq as nat), c, decimal(next as nat));
        law_decimal_is_unambiguous(seq as nat, next as nat);
    }
}

/// The extension is what stands behind the last dot, and the stem what stands before it; a name
/// without a dot, but perhaps for its first character, has no extension and is its own stem.
pub proof fn law_last_dot_parts_a_name(base: Seq<char>, ext: Seq<char>)
    requires
        !ext.contains('.'),
    ensures
        base.len() > 0 && base + "."@ + ext != ".."@ ==> extension(base + "."@ + ext) == Some(ext)
            && stem(base + "."@ + ext) == base,
        extension(ext) is None && stem(ext) == ext,
        extension("."@ + ext) is None && stem("."@ + ext) == "."@ + ext,
        extension(".."@) is None && stem(".."@) == ".."@,
{
    reveal_strlit(".");
    reveal_strlit("..");
    let name = base + "."@ + ext;
    assert forall|j: int| base.len() < j < name.len() implies #[trigger] name[j] != '.' by {
        assert(name[j] == ext[j - base.len() - 1]);
        assert(ext.contains(ext[j - base.len() - 1]));
    }
    assert(name[base.len() as int] == '.');
    lemma_last_dot(name, base.len() as int);
    assert(name.skip(base.len() as int + 1) =~= ext);
    assert(name.take(base.len() as int) =~= base);
    assert forall|j: int| -1 < j < ext.len() implies #[trigger] ext[j] != '.' by {
        assert(ext.contains(ext[j]));
    }
    lemma_last_dot(ext, -1);
    let hidden = "."@ + ext;
    assert forall|j: int| 0 < j < hidden.len() implies #[trigger] hidden[j] != '.' by {
        assert(hidden[j] == ext[j - 1]);
    }
    assert(hidden[0] == '.');
    lemma_last_dot(hidden, 0);
}

/// Of the ASCII characters, letters, digits, `-` and `_` are kept in a made-up name and every other
/// one becomes `_`.
pub proof fn law_safe_characters_are_kept(name: Seq<char>, i: int)
    requires
        0 <= i < name.len(),
        name[i] <= '\u{7f}',
    ensures
        ({
            let c = name[i];
            let kept = ('0' <= c && c <= '9') || ('a' <= c && c <= 'z') || ('A' <= c && c <= 'Z') || c
                == '-' || c == '_';
            sanitized(name)[i] == if kept {
                c
            } else {
                '_'
            }
        }),
{
}

/// Writing a number and reading it again gives the number, and it does not start with a zero unless
/// it is one.
pub proof fn law_decimal_reads_back(n: nat)
    ensures
        version::number(decimal(n)) == n,
        n > 0 ==> decimal(n)[0] != '0',
    decreases n,
{
    let d = decimal(n);
    if n >= 10 {
        law_decimal_reads_back(n / 10);
        lemma_decimal_digits(n / 10);
        assert(d.drop_last() =~= decimal(n / 10));
        assert(d.last() == digit(n % 10));
        assert(version::digit_value(digit(n % 10)) == n % 10);
        assert(d[0] == decimal(n / 10)[0]);
    } else {
        assert(d.drop_last() =~= Seq::empty());
        assert(version::number(d.drop_last()) == 0);
        assert(version::digit_value(digit(n)) == n);
    }
}

} // verus!
