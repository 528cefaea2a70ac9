//! Character-sequence vocabulary shared by every other module.
//!
//! A `str` or `String` is modelled by its sequence of characters. The spec functions here say
//! what splitting, joining, searching and case folding mean on such sequences; the executable
//! functions compute them.
use vstd::prelude::*;
use vstd::utf8::is_ascii_chars;

verus! {

/// `String::push` appends the given character to the end of the string.
pub assume_specification[ String::push ](s: &mut String, c: char)
    ensures
        final(s)@ == old(s)@.push(c),
;

/// What `str::to_lowercase` returns for text that is not ASCII throughout: the Unicode lowercase
/// mapping of the whole string.
pub uninterp spec fn unicode_lowercase(s: Seq<char>) -> Seq<char>;

/// `str::to_lowercase` is a function of the characters of the string. On text that is ASCII
/// throughout it maps `A`..`Z` to `a`..`z` and leaves every other character as it is.
pub assume_specification[ str::to_lowercase ](s: &str) -> (r: String)
    ensures
        is_ascii_chars(s@) ==> r@ == ascii_lowercase(s@),
        !is_ascii_chars(s@) ==> r@ == unicode_lowercase(s@),
;

/// `s` in lower case.
pub open spec fn lowercase(s: Seq<char>) -> Seq<char> {
    if is_ascii_chars(s) {
        ascii_lowercase(s)
    } else {
        unicode_lowercase(s)
    }
}

/// The views of a sequence of strings.
pub open spec fn texts(v: Seq<String>) -> Seq<Seq<char>> {
    v.map_values(|s: String| s@)
}

/// The view of an optional string.
pub open spec fn text_opt(o: Option<String>) -> Option<Seq<char>> {
    match o {
        Some(s) => Some(s@),
        None => None,
    }
}

/// `s` with every backslash turned into a forward slash.
pub open spec fn slashed(s: Seq<char>) -> Seq<char> {
    s.map_values(|c: char| if c == '\\' { '/' } else { c })
}

/// One ASCII letter in lower case; any other character unchanged.
pub open spec fn ascii_lower(c: char) -> char {
    if 'A' <= c && c <= 'Z' {
        (c as u8 + 32) as char
    } else {
        c
    }
}

pub open spec fn ascii_lowercase(s: Seq<char>) -> Seq<char> {
    s.map_values(|c: char| ascii_lower(c))
}

/// The places at which a text is cut.
#[derive(Clone, Copy, PartialEq, Eq, Structural)]
pub enum Separator {
    /// `/`, between the components of a path.
    Slash,
    /// `-`, between the words of a slug.
    Hyphen,
    /// `.`, `-`, `+` or a space, between the fields of a version.
    Version,
}

impl Separator {
    pub open spec fn cuts(self, c: char) -> bool {
        match self {
            Separator::Slash => c == '/',
            Separator::Hyphen => c == '-',
            Separator::Version => c == '.' || c == '-' || c == '+' || c == ' ',
        }
    }

    pub fn is_cut(self, c: char) -> (r: bool)
        ensures
            r == self.cuts(c),
    {
        match self {
            Separator::Slash => c == '/',
            Separator::Hyphen => c == '-',
            Separator::Version => c == '.' || c == '-' || c == '+' || c == ' ',
        }
    }
}

/// The pieces between the separators of `s`: one more than there are separators, empty ones
/// included.
pub open spec fn split(s: Seq<char>, sep: Separator) -> Seq<Seq<char>>
    decreases s.len(),
{
    if s.len() == 0 {
        seq![Seq::<char>::empty()]
    } else {
        let before = split(s.drop_last(), sep);
        if sep.cuts(s.last()) {
            before.push(Seq::<char>::empty())
        } else {
            before.drop_last().push(before.last().push(s.last()))
        }
    }
}

pub open spec fn non_empty(p: Seq<char>) -> bool {
    p.len() > 0
}

/// The pieces of `s` that are not empty.
pub open spec fn pieces(s: Seq<char>, sep: Separator) -> Seq<Seq<char>> {
    split(s, sep).filter(|p: Seq<char>| non_empty(p))
}

/// The parts put one after another with `sep` in between.
pub open spec fn join(parts: Seq<Seq<char>>, sep: Seq<char>) -> Seq<char>
    decreases parts.len(),
{
    if parts.len() == 0 {
        Seq::empty()
    } else if parts.len() == 1 {
        parts[0]
    } else {
        join(parts.drop_last(), sep) + sep + parts.last()
    }
}

/// `t` stands in `s` at position `i`.
pub open spec fn occurs_at(s: Seq<char>, t: Seq<char>, i: int) -> bool {
    0 <= i && i + t.len() <= s.len() && s.subrange(i, i + t.len()) == t
}

/// `t` stands somewhere in `s`.
pub open spec fn occurs(s: Seq<char>, t: Seq<char>) -> bool {
    exists|i: int| #[trigger] occurs_at(s, t, i)
}

/// `s` without the slashes at its end.
pub open spec fn trim_slashes(s: Seq<char>) -> Seq<char>
    decreases s.len(),
{
    if s.len() > 0 && s.last() == '/' {
        trim_slashes(s.drop_last())
    } else {
        s
    }
}

/// No character of `s` separates.
pub open spec fn uncut(s: Seq<char>, sep: Separator) -> bool {
    forall|i: int| 0 <= i < s.len() ==> !sep.cuts(#[trigger] s[i])
}

/// Filtering nothing gives nothing.
pub proof fn lemma_filter_none<A>(s: Seq<A>, keep: spec_fn(A) -> bool)
    ensures
        s.take(0).filter(keep) == Seq::<A>::empty(),
{
    reveal(Seq::filter);
    assert(s.take(0) =~= Seq::<A>::empty());
}

/// How a filtered prefix grows by one element.
pub proof fn lemma_filter_next<A>(s: Seq<A>, keep: spec_fn(A) -> bool, i: int)
    requires
        0 <= i < s.len(),
    ensures
        s.take(i + 1).filter(keep) == if keep(s[i]) {
            s.take(i).filter(keep).push(s[i])
        } else {
            s.take(i).filter(keep)
        },
{
    reveal(Seq::filter);
    assert(s.take(i + 1).drop_last() =~= s.take(i));
}

pub fn chars_of(s: &str) -> (r: Vec<char>)
    ensures
        r@ == s@,
{
    let mut r: Vec<char> = Vec::new();
    for c in it: s.chars()
        invariant
            it.seq() == s@,
            r@ == s@.take(it.index()),
    {
        r.push(c);
    }
    assert(s@.take(s@.len() as int) =~= s@);
    r
}

/// A string of its own with the characters of `s`.
pub fn owned(s: &str) -> (r: String)
    ensures
        r@ == s@,
{
    s.to_string()
}

fn chars_match(s: &[char], t: &[char], at: usize) -> (r: bool)
    requires
        at + t@.len() <= s@.len(),
    ensures
        r == occurs_at(s@, t@, at as int),
{
    let n: usize = s.len();
    for i in 0..t.len()
        invariant
            at + t@.len() <= s@.len(),
            s@.len() == n,
            forall|j: int| 0 <= j < i ==> s@[at + j] == t@[j],
    {
        if s[at + i] != t[i] {
            assert(s@.subrange(at as int, at + t@.len())[i as int] != t@[i as int]);
            return false;
        }
    }
    assert(s@.subrange(at as int, at + t@.len()) =~= t@);
    true
}

pub fn same(a: &str, b: &str) -> (r: bool)
    ensures
        r == (a@ == b@),
{
    let x = chars_of(a);
    let y = chars_of(b);
    if x.len() != y.len() {
        return false;
    }
    let r = chars_match(x.as_slice(), y.as_slice(), 0);
    assert(x@.subrange(0, y@.len() as int) =~= x@);
    r
}

pub fn starts_with(s: &str, prefix: &str) -> (r: bool)
    ensures
        r == prefix@.is_prefix_of(s@),
{
    let x = chars_of(s);
    let y = chars_of(prefix);
    if x.len() < y.len() {
        return false;
    }
    chars_match(x.as_slice(), y.as_slice(), 0)
}

pub fn ends_with(s: &str, suffix: &str) -> (r: bool)
    ensures
        r == suffix@.is_suffix_of(s@),
{
    let x = chars_of(s);
    let y = chars_of(suffix);
    if x.len() < y.len() {
        return false;
    }
    chars_match(x.as_slice(), y.as_slice(), x.len() - y.len())
}

pub fn contains(s: &str, t: &str) -> (r: bool)
    ensures
        r == occurs(s@, t@),
{
    let x = chars_of(s);
    let y = chars_of(t);
    if x.len() < y.len() {
        return false;
    }
    let spare: usize = x.len() - y.len();
    for i in 0..spare
        invariant
            x@ == s@,
            y@ == t@,
            spare + y@.len() == x@.len(),
            forall|j: int| 0 <= j < i ==> !occurs_at(s@, t@, j),
    {
        if chars_match(x.as_slice(), y.as_slice(), i) {
            return true;
        }
    }
    chars_match(x.as_slice(), y.as_slice(), spare)
}

/// `s` with every backslash turned into a forward slash.
pub fn slashes(s: &str) -> (r: String)
    ensures
        r@ == slashed(s@),
{
    let x = chars_of(s);
    let mut r = String::new();
    for i in 0..x.len()
        invariant
            x@ == s@,
            r@ == slashed(s@).take(i as int),
    {
        let c = x[i];
        r.push(if c == '\\' { '/' } else { c });
        assert(slashed(s@).take(i + 1) =~= slashed(s@).take(i as int).push(slashed(s@)[i as int]));
    }
    assert(slashed(s@).take(x@.len() as int) =~= slashed(s@));
    r
}

/// Whether the two texts are the same but for the case of ASCII letters.
pub fn same_ignoring_ascii_case(a: &str, b: &str) -> (r: bool)
    ensures
        r == (ascii_lowercase(a@) == ascii_lowercase(b@)),
{
    let x = chars_of(a);
    let y = chars_of(b);
    let ghost la = ascii_lowercase(a@);
    let ghost lb = ascii_lowercase(b@);
    if x.len() != y.len() {
        assert(la.len() != lb.len());
        return false;
    }
    for i in 0..x.len()
        invariant
            x@ == a@,
            y@ == b@,
            x@.len() == y@.len(),
            la == ascii_lowercase(a@),
            lb == ascii_lowercase(b@),
            forall|j: int| 0 <= j < i ==> la[j] == lb[j],
    {
        if lower_char(x[i]) != lower_char(y[i]) {
            assert(la[i as int] != lb[i as int]);
            return false;
        }
    }
    assert(la =~= lb);
    true
}

pub fn lower_char(c: char) -> (r: char)
    ensures
        r == ascii_lower(c),
{
    if 'A' <= c && c <= 'Z' {
        (c as u8 + 32) as char
    } else {
        c
    }
}

pub proof fn lemma_split_not_empty(s: Seq<char>, sep: Separator)
    ensures
        split(s, sep).len() > 0,
    decreases s.len(),
{
    if s.len() > 0 {
        lemma_split_not_empty(s.drop_last(), sep);
    }
}

/// Cutting at a separator: the pieces before it and the pieces after it.
pub proof fn lemma_split_at(a: Seq<char>, c: char, b: Seq<char>, sep: Separator)
    requires
        sep.cuts(c),
    ensures
        split(a.push(c) + b, sep) == split(a, sep) + split(b, sep),
    decreases b.len(),
{
    let whole = a.push(c) + b;
    if b.len() == 0 {
        assert(whole =~= a.push(c));
        assert(whole.drop_last() =~= a);
        assert(split(whole, sep) =~= split(a, sep) + split(b, sep));
    } else {
        lemma_split_at(a, c, b.drop_last(), sep);
        lemma_split_not_empty(b.drop_last(), sep);
        assert(whole.drop_last() =~= a.push(c) + b.drop_last());
        let before = split(b.drop_last(), sep);
        let joined = split(a, sep) + before;
        assert(joined.drop_last() =~= split(a, sep) + before.drop_last());
        assert(split(whole, sep) =~= split(a, sep) + split(b, sep));
    }
}

/// Text without a separator is one piece.
pub proof fn lemma_split_uncut(s: Seq<char>, sep: Separator)
    requires
        uncut(s, sep),
    ensures
        split(s, sep) == seq![s],
    decreases s.len(),
{
    if s.len() > 0 {
        assert(!sep.cuts(s[s.len() - 1]));
        assert(uncut(s.drop_last(), sep)) by {
            assert forall|i: int| 0 <= i < s.drop_last().len() implies !sep.cuts(
                #[trigger] s.drop_last()[i],
            ) by {
                assert(!sep.cuts(s[i]));
            }
        }
        lemma_split_uncut(s.drop_last(), sep);
        assert(s.drop_last().push(s.last()) =~= s);
        assert(split(s, sep) =~= seq![s]);
    } else {
        assert(s =~= Seq::empty());
    }
}

/// No piece holds a separator, and every character of a piece is a character of the text.
pub proof fn lemma_split_pieces(s: Seq<char>, sep: Separator)
    ensures
        forall|k: int| 0 <= k < split(s, sep).len() ==> uncut(#[trigger] split(s, sep)[k], sep),
        forall|k: int, i: int|
            0 <= k < split(s, sep).len() && 0 <= i < split(s, sep)[k].len() ==> s.contains(
                #[trigger] split(s, sep)[k][i],
            ),
    decreases s.len(),
{
    if s.len() > 0 {
        let t = s.drop_last();
        lemma_split_pieces(t, sep);
        lemma_split_not_empty(t, sep);
        let before = split(t, sep);
        let now = split(s, sep);
        assert forall|k: int| 0 <= k < now.len() implies uncut(#[trigger] now[k], sep) by {
            if k < before.len() - 1 {
                assert(now[k] == before[k]);
            } else {
                assert(uncut(before[before.len() - 1], sep));
            }
        }
        assert forall|k: int, i: int|
            0 <= k < now.len() && 0 <= i < now[k].len() implies s.contains(
            #[trigger] now[k][i],
        ) by {
            if k < before.len() && i < before[k].len() {
                assert(now[k][i] == before[k][i]);
                assert(t.contains(before[k][i]));
                let j = choose|j: int| 0 <= j < t.len() && t[j] == before[k][i];
                assert(s[j] == now[k][i]);
            } else {
                assert(now[k][i] == s[s.len() - 1]);
            }
        }
    }
}

/// Cutting at a separator, empty pieces left out.
pub proof fn lemma_pieces_at(a: Seq<char>, c: char, b: Seq<char>, sep: Separator)
    requires
        sep.cuts(c),
    ensures
        pieces(a.push(c) + b, sep) == pieces(a, sep) + pieces(b, sep),
{
    lemma_split_at(a, c, b, sep);
    Seq::filter_distributes_over_add(
        split(a, sep),
        split(b, sep),
        |p: Seq<char>| non_empty(p),
    );
}

/// Text without a separator is one piece, or none where it is empty.
pub proof fn lemma_pieces_uncut(s: Seq<char>, sep: Separator)
    requires
        uncut(s, sep),
    ensures
        pieces(s, sep) == if s.len() > 0 {
            seq![s]
        } else {
            Seq::empty()
        },
{
    lemma_split_uncut(s, sep);
    reveal_with_fuel(Seq::filter, 2);
    assert(seq![s].drop_last() =~= Seq::empty());
    assert(pieces(s, sep) =~= if s.len() > 0 {
        seq![s]
    } else {
        Seq::empty()
    });
}

/// The pieces are not empty, hold no separator and are made of characters of the text.
pub proof fn lemma_pieces(s: Seq<char>, sep: Separator)
    ensures
        forall|k: int|
            0 <= k < pieces(s, sep).len() ==> (#[trigger] pieces(s, sep)[k]).len() > 0 && uncut(
                pieces(s, sep)[k],
                sep,
            ),
        forall|k: int, i: int|
            0 <= k < pieces(s, sep).len() && 0 <= i < pieces(s, sep)[k].len() ==> s.contains(
                #[trigger] pieces(s, sep)[k][i],
            ),
{
    let keep = |p: Seq<char>| non_empty(p);
    let all = split(s, sep);
    let kept = pieces(s, sep);
    lemma_split_pieces(s, sep);
    assert forall|k: int| 0 <= k < kept.len() implies (#[trigger] kept[k]).len() > 0 && uncut(
        kept[k],
        sep,
    ) && all.contains(kept[k]) by {
        all.lemma_filter_pred(keep, k);
        all.lemma_filter_contains_rev(keep, kept[k]);
        let j = choose|j: int| 0 <= j < all.len() && all[j] == kept[k];
        assert(uncut(all[j], sep));
    }
    assert forall|k: int, i: int| 0 <= k < kept.len() && 0 <= i < kept[k].len() implies s.contains(
        #[trigger] kept[k][i],
    ) by {
        let j = choose|j: int| 0 <= j < all.len() && all[j] == kept[k];
        assert(s.contains(all[j][i]));
    }
}

/// Joining parts with slashes and cutting the result again gives the parts.
pub proof fn lemma_pieces_of_join(parts: Seq<Seq<char>>)
    requires
        forall|k: int|
            0 <= k < parts.len() ==> (#[trigger] parts[k]).len() > 0 && uncut(
                parts[k],
                Separator::Slash,
            ),
    ensures
        pieces(join(parts, "/"@), Separator::Slash) == parts,
    decreases parts.len(),
{
    reveal_strlit("/");
    if parts.len() == 0 {
        lemma_pieces_uncut(Seq::empty(), Separator::Slash);
        assert(parts =~= Seq::empty());
    } else if parts.len() == 1 {
        lemma_pieces_uncut(parts[0], Separator::Slash);
        assert(parts =~= seq![parts[0]]);
    } else {
        let before = parts.drop_last();
        assert forall|k: int| 0 <= k < before.len() implies (#[trigger] before[k]).len() > 0
            && uncut(before[k], Separator::Slash) by {
            assert(before[k] == parts[k]);
        }
        lemma_pieces_of_join(before);
        let a = join(before, "/"@);
        assert(a + "/"@ + parts.last() =~= a.push('/') + parts.last());
        lemma_pieces_at(a, '/', parts.last(), Separator::Slash);
        assert(parts[parts.len() - 1].len() > 0);
        lemma_pieces_uncut(parts.last(), Separator::Slash);
        assert(before + seq![parts.last()] =~= parts);
    }
}

/// The pieces between the separators.
pub fn split_text(s: &str, sep: Separator) -> (r: Vec<String>)
    ensures
        texts(r@) == split(s@, sep),
{
    let x = chars_of(s);
    let mut done: Vec<String> = Vec::new();
    let mut last = String::new();
    assert(s@.take(0) =~= Seq::<char>::empty());
    assert(texts(done@).push(last@) =~= split(s@.take(0), sep));
    for i in 0..x.len()
        invariant
            x@ == s@,
            texts(done@).push(last@) == split(s@.take(i as int), sep),
    {
        let c = x[i];
        let ghost before = texts(done@);
        assert(s@.take(i + 1).drop_last() =~= s@.take(i as int));
        assert(before.push(last@).drop_last() =~= before);
        if sep.is_cut(c) {
            done.push(last);
            last = String::new();
            assert(texts(done@) =~= before.push(done@.last()@));
        } else {
            last.push(c);
        }
    }
    let ghost before = texts(done@);
    assert(s@.take(x@.len() as int) =~= s@);
    done.push(last);
    assert(texts(done@) =~= before.push(done@.last()@));
    done
}

/// The pieces between the separators that are not empty.
pub fn pieces_of(s: &str, sep: Separator) -> (r: Vec<String>)
    ensures
        texts(r@) == pieces(s@, sep),
{
    let all = split_text(s, sep);
    let mut r: Vec<String> = Vec::new();
    let ghost whole = texts(all@);
    let ghost keep = |p: Seq<char>| non_empty(p);
    proof {
        lemma_filter_none(whole, keep);
        assert(texts(r@) =~= Seq::empty());
    }
    for i in 0..all.len()
        invariant
            whole == texts(all@),
            texts(r@) == whole.take(i as int).filter(keep),
            keep == (|p: Seq<char>| non_empty(p)),
    {
        let ghost before = texts(r@);
        proof {
            lemma_filter_next(whole, keep, i as int);
        }
        if !all[i].as_str().is_empty() {
            r.push(all[i].clone());
            assert(texts(r@) =~= before.push(whole[i as int]));
        }
    }
    assert(whole.take(whole.len() as int) =~= whole);
    r
}

/// The parts from index `from` on, with `sep` in between.
pub fn join_from(parts: &[String], from: usize, sep: &str) -> (r: String)
    requires
        from <= parts@.len(),
    ensures
        r@ == join(texts(parts@).skip(from as int), sep@),
{
    let mut r = String::new();
    let ghost all = texts(parts@).skip(from as int);
    assert(all.take(0) =~= Seq::empty());
    for i in from..parts.len()
        invariant
            from <= parts@.len(),
            all == texts(parts@).skip(from as int),
            r@ == join(all.take(i - from), sep@),
    {
        let ghost upto = all.take(i - from + 1);
        assert(upto.drop_last() =~= all.take(i - from));
        assert(upto.last() == parts@[i as int]@);
        if i > from {
            r.append(sep);
        }
        r.append(parts[i].as_str());
        assert(r@ =~= join(upto, sep@));
    }
    assert(all.take(all.len() as int) =~= all);
    r
}

/// `s` without the slashes at its end.
pub fn trim_end_slashes(s: &str) -> (r: String)
    ensures
        r@ == trim_slashes(s@),
{
    let x = chars_of(s);
    let mut n: usize = x.len();
    assert(s@.take(n as int) =~= s@);
    while n > 0 && x[n - 1] == '/'
        invariant
            x@ == s@,
            n <= x@.len(),
            trim_slashes(s@.take(n as int)) == trim_slashes(s@),
        decreases n,
    {
        assert(s@.take(n as int).drop_last() =~= s@.take(n - 1));
        n = n - 1;
    }
    let mut r = String::new();
    assert(s@.take(0) =~= Seq::empty());
    for i in 0..n
        invariant
            x@ == s@,
            n <= x@.len(),
            r@ == s@.take(i as int),
    {
        r.push(x[i]);
        assert(s@.take(i + 1) =~= s@.take(i as int).push(s@[i as int]));
    }
    r
}

/// The two texts one after the other.
pub fn concat(a: &str, b: &str) -> (r: String)
    ensures
        r@ == a@ + b@,
{
    let mut r = owned(a);
    r.append(b);
    r
}

/// What `char::is_whitespace` returns for a character that is not ASCII: whether it has the
/// Unicode property `White_Space`.
pub uninterp spec fn unicode_whitespace(c: char) -> bool;

/// `char::is_whitespace` is a function of the character. Of the ASCII characters it is true of the
/// space and of tab, line feed, vertical tab, form feed and carriage return.
pub assume_specification[ char::is_whitespace ](c: char) -> (r: bool)
    ensures
        c <= '\x7f' ==> r == ascii_whitespace(c),
        c > '\x7f' ==> r == unicode_whitespace(c),
;

pub open spec fn ascii_whitespace(c: char) -> bool {
    c == ' ' || ('\t' <= c && c <= '\r')
}

pub open spec fn whitespace(c: char) -> bool {
    if c <= '\x7f' {
        ascii_whitespace(c)
    } else {
        unicode_whitespace(c)
    }
}

/// There is nothing but whitespace in `s`.
pub open spec fn blank(s: Seq<char>) -> bool {
    forall|i: int| 0 <= i < s.len() ==> whitespace(#[trigger] s[i])
}

pub fn is_blank(s: &str) -> (r: bool)
    ensures
        r == blank(s@),
{
    let x = chars_of(s);
    for i in 0..x.len()
        invariant
            x@ == s@,
            forall|j: int| 0 <= j < i ==> whitespace(#[trigger] s@[j]),
    {
        if !x[i].is_whitespace() {
            assert(!whitespace(s@[i as int]));
            return false;
        }
    }
    true
}

/// The first `n` characters of a text.
pub fn first_chars(s: &str, n: usize) -> (r: String)
    requires
        n <= s@.len(),
    ensures
        r@ == s@.take(n as int),
{
    let x = chars_of(s);
    let mut r = String::new();
    assert(s@.take(0) =~= Seq::empty());
    for i in 0..n
        invariant
            x@ == s@,
            n <= x@.len(),
            r@ == s@.take(i as int),
    {
        r.push(x[i]);
        assert(s@.take(i + 1) =~= s@.take(i as int).push(s@[i as int]));
    }
    r
}

/// The texts of `s`, each once, in the order in which they first occur.
pub open spec fn distinct(s: Seq<Seq<char>>) -> Seq<Seq<char>>
    decreases s.len(),
{
    if s.len() == 0 {
        Seq::empty()
    } else {
        with_new(distinct(s.drop_last()), s.last())
    }
}

/// `s` with `t` added at its end where it is not in it yet.
pub open spec fn with_new(s: Seq<Seq<char>>, t: Seq<char>) -> Seq<Seq<char>> {
    if s.contains(t) {
        s
    } else {
        s.push(t)
    }
}

pub fn is_among(v: &[String], t: &str) -> (r: bool)
    ensures
        r == texts(v@).contains(t@),
{
    for i in 0..v.len()
        invariant
            forall|j: int| 0 <= j < i ==> texts(v@)[j] != t@,
    {
        if same(v[i].as_str(), t) {
            assert(texts(v@)[i as int] == t@);
            return true;
        }
    }
    false
}

pub fn push_new(v: &mut Vec<String>, t: &str)
    ensures
        texts(final(v)@) == with_new(texts(old(v)@), t@),
{
    if !is_among(v.as_slice(), t) {
        let ghost was = texts(v@);
        v.push(owned(t));
        assert(texts(v@) =~= was.push(t@));
    }
}

/// `distinct` keeps every text and none of them twice.
pub proof fn lemma_distinct(s: Seq<Seq<char>>)
    ensures
        distinct(s).no_duplicates(),
        forall|t: Seq<char>| #[trigger] distinct(s).contains(t) <==> s.contains(t),
    decreases s.len(),
{
    if s.len() > 0 {
        let before = s.drop_last();
        lemma_distinct(before);
        let d = distinct(before);
        assert forall|t: Seq<char>| #[trigger] distinct(s).contains(t) <==> s.contains(t) by {
            if s.contains(t) {
                let i = choose|i: int| 0 <= i < s.len() && s[i] == t;
                if i < before.len() {
                    assert(before[i] == t);
                    assert(before.contains(t));
                    assert(d.contains(t));
                    let k = choose|k: int| 0 <= k < d.len() && d[k] == t;
                    assert(distinct(s)[k] == t);
                } else if !d.contains(t) {
                    assert(distinct(s)[d.len() as int] == t);
                }
            }
            if distinct(s).contains(t) {
                let k = choose|k: int| 0 <= k < distinct(s).len() && distinct(s)[k] == t;
                if k < d.len() {
                    assert(d.contains(d[k]));
                    assert(before.contains(t));
                    let i = choose|i: int| 0 <= i < before.len() && before[i] == t;
                    assert(s[i] == t);
                } else {
                    assert(s[s.len() - 1] == t);
                }
            }
        }
    }
}

/// Slashes at the end do not count, however many they are.
pub proof fn law_slashes_at_the_end_are_trimmed(s: Seq<char>)
    ensures
        trim_slashes(s.push('/')) == trim_slashes(s),
        s.len() > 0 && s[s.len() - 1] != '/' ==> trim_slashes(s) == s,
        trim_slashes(Seq::<char>::empty()).len() == 0,
{
    assert(s.push('/').drop_last() =~= s);
}

/// A text stands in every text that it is put into, wherever that is.
pub proof fn law_parts_stand_in_the_whole(a: Seq<char>, t: Seq<char>, b: Seq<char>)
    ensures
        occurs(a + t + b, t),
{
    assert((a + t + b).subrange(a.len() as int, a.len() as int + t.len()) =~= t);
    assert(occurs_at(a + t + b, t, a.len() as int));
}

/// Of equal texts the first is kept, in its place.
pub proof fn law_first_of_equals_is_kept(s: Seq<Seq<char>>, t: Seq<char>)
    ensures
        distinct(s.push(t)) == if s.contains(t) {
            distinct(s)
        } else {
            distinct(s).push(t)
        },
        distinct(Seq::<Seq<char>>::empty()).len() == 0,
{
    assert(s.push(t).drop_last() =~= s);
    assert(s.push(t).last() == t);
    lemma_distinct(s);
    assert(distinct(s).contains(t) <==> s.contains(t));
}

/// Texts are joined in order, with the separator between them and nowhere else.
pub proof fn law_separators_stand_between(parts: Seq<Seq<char>>, p: Seq<char>, sep: Seq<char>)
    ensures
        join(seq![p], sep) == p,
        parts.len() > 0 ==> join(parts.push(p), sep) == join(parts, sep) + sep + p,
        join(Seq::<Seq<char>>::empty(), sep).len() == 0,
{
    assert(parts.push(p).drop_last() =~= parts);
}

/// Every backslash becomes a forward slash, and nothing else changes; of the ASCII letters the
/// capitals become small, and nothing else changes.
pub proof fn law_characters_are_mapped_one_by_one(s: Seq<char>, i: int)
    requires
        0 <= i < s.len(),
    ensures
        slashed(s).len() == s.len(),
        s[i] == '\\' ==> slashed(s)[i] == '/',
        s[i] != '\\' ==> slashed(s)[i] == s[i],
        ascii_lowercase(s).len() == s.len(),
        'A' <= s[i] && s[i] <= 'Z' ==> ascii_lowercase(s)[i] as int == s[i] as int + 32,
        !('A' <= s[i] && s[i] <= 'Z') ==> ascii_lowercase(s)[i] == s[i],
{
}

} // verus!
