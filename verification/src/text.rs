use vstd::prelude::*;

verus! {

/// `String::push`, which std documents as appending the given character to
/// the end of the string. Trusted: the new text is the old one followed by
/// `ch`.
pub assume_specification[ String::push ](string: &mut String, ch: char)
    ensures
        final(string)@ == old(string)@.push(ch),
;

/// Whether `c` has the Unicode `White_Space` property, as `char::is_whitespace`
/// documents it.
pub open spec fn is_space(c: char) -> bool {
    let u = c as u32;
    ||| 0x09 <= u <= 0x0d
    ||| u == 0x20
    ||| u == 0x85
    ||| u == 0xa0
    ||| u == 0x1680
    ||| 0x2000 <= u <= 0x200a
    ||| u == 0x2028
    ||| u == 0x2029
    ||| u == 0x202f
    ||| u == 0x205f
    ||| u == 0x3000
}

/// Executable test for [`is_space`].
pub fn is_space_char(c: char) -> (b: bool)
    ensures
        b == is_space(c),
{
    let u = c as u32;
    (0x09 <= u && u <= 0x0d) || u == 0x20 || u == 0x85 || u == 0xa0 || u == 0x1680 || (0x2000
        <= u && u <= 0x200a) || u == 0x2028 || u == 0x2029 || u == 0x202f || u == 0x205f || u
        == 0x3000
}

/// The characters that a trimming step removes.
#[derive(PartialEq, Eq, Structural, Clone, Copy, Debug)]
pub enum CharClass {
    Space,
    Quote,
}

/// Whether `c` belongs to the class.
pub open spec fn in_class(class: CharClass, c: char) -> bool {
    match class {
        CharClass::Space => is_space(c),
        CharClass::Quote => c == '"',
    }
}

fn in_class_exec(class: CharClass, c: char) -> (b: bool)
    ensures
        b == in_class(class, c),
{
    match class {
        CharClass::Space => is_space_char(c),
        CharClass::Quote => c == '"',
    }
}

/// `s` without its leading characters of the class.
pub open spec fn trim_start_class(s: Seq<char>, class: CharClass) -> Seq<char>
    decreases s.len(),
{
    if s.len() > 0 && in_class(class, s[0]) {
        trim_start_class(s.drop_first(), class)
    } else {
        s
    }
}

/// `s` without its trailing characters of the class.
pub open spec fn trim_end_class(s: Seq<char>, class: CharClass) -> Seq<char>
    decreases s.len(),
{
    if s.len() > 0 && in_class(class, s.last()) {
        trim_end_class(s.drop_last(), class)
    } else {
        s
    }
}

/// `s` without leading and trailing characters of the class.
pub open spec fn trim_class(s: Seq<char>, class: CharClass) -> Seq<char> {
    trim_end_class(trim_start_class(s, class), class)
}

/// `s` without leading and trailing whitespace, as `str::trim` gives it.
pub open spec fn trim(s: Seq<char>) -> Seq<char> {
    trim_class(s, CharClass::Space)
}

proof fn lemma_trim_start_skip(s: Seq<char>, class: CharClass, i: int)
    requires
        0 <= i <= s.len(),
        forall|k: int| 0 <= k < i ==> in_class(class, #[trigger] s[k]),
        i == s.len() || !in_class(class, s[i]),
    ensures
        trim_start_class(s, class) == s.subrange(i, s.len() as int),
    decreases i,
{
    if i == 0 {
        assert(s.subrange(0, s.len() as int) =~= s);
    } else {
        let t = s.drop_first();
        assert forall|k: int| 0 <= k < i - 1 implies in_class(class, #[trigger] t[k]) by {
            assert(t[k] == s[k + 1]);
        }
        if i - 1 < t.len() {
            assert(t[i - 1] == s[i]);
        }
        lemma_trim_start_skip(t, class, i - 1);
        assert(t.subrange(i - 1, t.len() as int) =~= s.subrange(i, s.len() as int));
    }
}

proof fn lemma_trim_end_take(s: Seq<char>, class: CharClass, j: int)
    requires
        0 <= j <= s.len(),
        forall|k: int| j <= k < s.len() ==> in_class(class, #[trigger] s[k]),
        j == 0 || !in_class(class, s[j - 1]),
    ensures
        trim_end_class(s, class) == s.subrange(0, j),
    decreases s.len() - j,
{
    if j == s.len() {
        assert(s.subrange(0, j) =~= s);
    } else {
        let t = s.drop_last();
        assert forall|k: int| j <= k < t.len() implies in_class(class, #[trigger] t[k]) by {
            assert(t[k] == s[k]);
        }
        if j > 0 {
            assert(t[j - 1] == s[j - 1]);
        }
        lemma_trim_end_take(t, class, j);
        assert(t.subrange(0, j) =~= s.subrange(0, j));
    }
}

/// The bounds `(start, end)` of `v@[lo..hi]` without leading and trailing
/// characters of the class.
pub fn trim_bounds(v: &Vec<char>, lo: usize, hi: usize, class: CharClass) -> (r: (usize, usize))
    requires
        lo <= hi <= v.len(),
    ensures
        lo <= r.0 <= r.1 <= hi,
        v@.subrange(r.0 as int, r.1 as int) == trim_class(v@.subrange(lo as int, hi as int), class),
{
    let ghost s = v@.subrange(lo as int, hi as int);
    let mut i = lo;
    while i < hi && in_class_exec(class, v[i])
        invariant
            lo <= i <= hi <= v.len(),
            forall|k: int| lo <= k < i ==> in_class(class, #[trigger] v@[k]),
        decreases hi - i,
    {
        i = i + 1;
    }
    proof {
        assert forall|k: int| 0 <= k < i - lo implies in_class(class, #[trigger] s[k]) by {
            assert(s[k] == v@[lo + k]);
        }
        if i < hi {
            assert(s[i - lo] == v@[i as int]);
        }
        lemma_trim_start_skip(s, class, i - lo);
        assert(s.subrange(i - lo, s.len() as int) =~= v@.subrange(i as int, hi as int));
    }
    let ghost t = v@.subrange(i as int, hi as int);
    let mut j = hi;
    while j > i && in_class_exec(class, v[j - 1])
        invariant
            lo <= i <= j <= hi <= v.len(),
            forall|k: int| j <= k < hi ==> in_class(class, #[trigger] v@[k]),
        decreases j - i,
    {
        j = j - 1;
    }
    proof {
        assert forall|k: int| j - i <= k < t.len() implies in_class(class, #[trigger] t[k]) by {
            assert(t[k] == v@[i + k]);
        }
        if j > i {
            assert(t[j - i - 1] == v@[j - 1]);
        }
        lemma_trim_end_take(t, class, j - i);
        assert(t.subrange(0, j - i) =~= v@.subrange(i as int, j as int));
    }
    (i, j)
}

/// A string holding `v@[from..to]`.
pub fn string_of_range(v: &Vec<char>, from: usize, to: usize) -> (s: String)
    requires
        from <= to <= v.len(),
    ensures
        s@ == v@.subrange(from as int, to as int),
{
    let mut s = String::new();
    let mut i: usize = from;
    while i < to
        invariant
            from <= i <= to <= v.len(),
            s@ == v@.subrange(from as int, i as int),
        decreases to - i,
    {
        s.push(v[i]);
        proof {
            assert(v@.subrange(from as int, i + 1) =~= v@.subrange(from as int, i as int).push(
                v@[i as int],
            ));
        }
        i = i + 1;
    }
    s
}

/// `s` without leading and trailing whitespace (`str::trim`).
pub fn trimmed(s: &str) -> (r: String)
    ensures
        r@ == trim(s@),
{
    let v = chars_of(s);
    let (a, b) = trim_bounds(&v, 0, v.len(), CharClass::Space);
    proof {
        assert(v@.subrange(0, v@.len() as int) =~= v@);
    }
    string_of_range(&v, a, b)
}

/// The characters of a string slice.
pub fn chars_of(s: &str) -> (v: Vec<char>)
    ensures
        v@ == s@,
{
    let mut v: Vec<char> = Vec::new();
    for c in it: s.chars()
        invariant
            v@ == it.seq().take(it.index() as int),
    {
        v.push(c);
    }
    v
}

/// Length of the run of non-whitespace characters that `s` starts with.
pub open spec fn word_len(s: Seq<char>) -> nat
    decreases s.len(),
{
    if s.len() > 0 && !is_space(s[0]) {
        1 + word_len(s.drop_first())
    } else {
        0
    }
}

proof fn lemma_word_len(s: Seq<char>, w: int)
    requires
        0 <= w <= s.len(),
        forall|k: int| 0 <= k < w ==> !is_space(#[trigger] s[k]),
        w == s.len() || is_space(s[w]),
    ensures
        word_len(s) == w,
    decreases w,
{
    if w > 0 {
        let t = s.drop_first();
        assert forall|k: int| 0 <= k < w - 1 implies !is_space(#[trigger] t[k]) by {
            assert(t[k] == s[k + 1]);
        }
        if w - 1 < t.len() {
            assert(t[w - 1] == s[w]);
        }
        lemma_word_len(t, w - 1);
    }
}

/// A word is never longer than the text, and at least one character long
/// when the text starts with a non-whitespace character.
pub proof fn lemma_word_len_bound(s: Seq<char>)
    ensures
        word_len(s) <= s.len(),
        s.len() > 0 && !is_space(s[0]) ==> word_len(s) >= 1,
    decreases s.len(),
{
    if s.len() > 0 && !is_space(s[0]) {
        lemma_word_len_bound(s.drop_first());
    }
}

/// The maximal runs of non-whitespace characters of `s`, in order, as
/// `str::split_whitespace` yields them.
pub open spec fn fields(s: Seq<char>) -> Seq<Seq<char>>
    decreases s.len(),
{
    if s.len() == 0 {
        seq![]
    } else if is_space(s[0]) {
        fields(s.drop_first())
    } else {
        proof {
            lemma_word_len_bound(s);
        }
        seq![s.take(word_len(s) as int)] + fields(s.skip(word_len(s) as int))
    }
}

/// The strings held by a vector of strings.
pub open spec fn strings_view(v: Seq<String>) -> Seq<Seq<char>> {
    v.map_values(|x: String| x@)
}

/// Appends the whitespace-separated fields of `v@` to `out`.
fn push_fields(v: &Vec<char>, out: &mut Vec<String>)
    ensures
        strings_view(final(out)@) == strings_view(old(out)@) + fields(v@),
{
    let ghost start = strings_view(out@);
    let n = v.len();
    let mut i: usize = 0;
    proof {
        assert(v@.skip(0) =~= v@);
        assert(start + fields(v@) =~= strings_view(out@) + fields(v@.skip(0)));
    }
    while i < n
        invariant
            n == v.len(),
            i <= n,
            start + fields(v@) == strings_view(out@) + fields(v@.skip(i as int)),
        decreases n - i,
    {
        let ghost rest = v@.skip(i as int);
        if is_space_char(v[i]) {
            proof {
                assert(rest.drop_first() =~= v@.skip(i + 1));
            }
            i = i + 1;
        } else {
            let mut j = i;
            while j < n && !is_space_char(v[j])
                invariant
                    n == v.len(),
                    i <= j <= n,
                    forall|k: int| i <= k < j ==> !is_space(#[trigger] v@[k]),
                decreases n - j,
            {
                j = j + 1;
            }
            proof {
                assert forall|k: int| 0 <= k < j - i implies !is_space(#[trigger] rest[k]) by {
                    assert(rest[k] == v@[i + k]);
                }
                if j < n {
                    assert(rest[j - i] == v@[j as int]);
                }
                lemma_word_len(rest, j - i);
                assert(rest.take(j - i) =~= v@.subrange(i as int, j as int));
                assert(rest.skip(j - i) =~= v@.skip(j as int));
            }
            let word = string_of_range(v, i, j);
            let ghost before = out@;
            out.push(word);
            proof {
                assert(strings_view(out@) =~= strings_view(before) + seq![
                    v@.subrange(i as int, j as int),
                ]);
                assert(start + fields(v@) =~= strings_view(out@) + fields(v@.skip(j as int)));
            }
            i = j;
        }
    }
    proof {
        assert(v@.skip(i as int) =~= Seq::<char>::empty());
        assert(strings_view(out@) + fields(v@.skip(i as int)) =~= strings_view(out@));
    }
}

/// The whitespace-separated fields of a string (`str::split_whitespace`).
pub fn split_fields(s: &str) -> (r: Vec<String>)
    ensures
        strings_view(r@) == fields(s@),
{
    let v = chars_of(s);
    let mut out: Vec<String> = Vec::new();
    proof {
        assert(strings_view(out@) =~= Seq::<Seq<char>>::empty());
    }
    push_fields(&v, &mut out);
    proof {
        assert(Seq::<Seq<char>>::empty() + fields(v@) =~= fields(v@));
    }
    out
}


/// Index of the first `'\n'` in `s`, or its length when there is none.
pub open spec fn newline_index(s: Seq<char>) -> nat
    decreases s.len(),
{
    if s.len() == 0 || s[0] == '\n' {
        0
    } else {
        1 + newline_index(s.drop_first())
    }
}

/// The line-feed index is within bounds, and points at a `'\n'` when it is
/// not the end.
pub proof fn lemma_newline_index_bound(s: Seq<char>)
    ensures
        newline_index(s) <= s.len(),
        newline_index(s) < s.len() ==> s[newline_index(s) as int] == '\n',
    decreases s.len(),
{
    if s.len() > 0 && s[0] != '\n' {
        lemma_newline_index_bound(s.drop_first());
    }
}

proof fn lemma_newline_index(s: Seq<char>, k: int)
    requires
        0 <= k <= s.len(),
        forall|m: int| 0 <= m < k ==> #[trigger] s[m] != '\n',
        k == s.len() || s[k] == '\n',
    ensures
        newline_index(s) == k,
    decreases k,
{
    if k > 0 {
        let t = s.drop_first();
        assert forall|m: int| 0 <= m < k - 1 implies #[trigger] t[m] != '\n' by {
            assert(t[m] == s[m + 1]);
        }
        if k - 1 < t.len() {
            assert(t[k - 1] == s[k]);
        }
        lemma_newline_index(t, k - 1);
    }
}

/// A line ended by `"\r\n"` loses its `'\r'`.
pub open spec fn strip_cr(l: Seq<char>) -> Seq<char> {
    if l.len() > 0 && l.last() == '\r' {
        l.drop_last()
    } else {
        l
    }
}

/// The lines of `s`, as `str::lines` yields them: split at each `'\n'`, a
/// `'\r'` right before a `'\n'` dropped, and no empty line after a final
/// line ending.
pub open spec fn lines(s: Seq<char>) -> Seq<Seq<char>>
    decreases s.len(),
{
    if s.len() == 0 {
        seq![]
    } else {
        proof {
            lemma_newline_index_bound(s);
        }
        let k = newline_index(s) as int;
        if k == s.len() {
            seq![s]
        } else {
            seq![strip_cr(s.take(k))] + lines(s.skip(k + 1))
        }
    }
}

/// The lines of a string (`str::lines`).
pub fn split_lines(s: &str) -> (r: Vec<String>)
    ensures
        strings_view(r@) == lines(s@),
{
    let v = chars_of(s);
    let n = v.len();
    let mut out: Vec<String> = Vec::new();
    let mut i: usize = 0;
    proof {
        assert(v@.skip(0) =~= v@);
        assert(strings_view(out@) + lines(v@.skip(0)) =~= lines(v@));
    }
    while i < n
        invariant
            n == v.len(),
            i <= n,
            lines(v@) == strings_view(out@) + lines(v@.skip(i as int)),
        decreases n - i,
    {
        let ghost rest = v@.skip(i as int);
        let mut j = i;
        while j < n && v[j] != '\n'
            invariant
                n == v.len(),
                i <= j <= n,
                forall|m: int| i <= m < j ==> #[trigger] v@[m] != '\n',
            decreases n - j,
        {
            j = j + 1;
        }
        proof {
            assert forall|m: int| 0 <= m < j - i implies #[trigger] rest[m] != '\n' by {
                assert(rest[m] == v@[i + m]);
            }
            if j < n {
                assert(rest[j - i] == v@[j as int]);
            }
            lemma_newline_index(rest, j - i);
            assert(rest.take(j - i) =~= v@.subrange(i as int, j as int));
        }
        let ghost before = out@;
        if j == n {
            out.push(string_of_range(&v, i, j));
            proof {
                assert(rest =~= v@.subrange(i as int, j as int));
                assert(v@.skip(j as int) =~= Seq::<char>::empty());
                assert(strings_view(out@) =~= strings_view(before) + seq![rest]);
                assert(lines(v@) =~= strings_view(out@) + lines(v@.skip(j as int)));
            }
            i = j;
        } else {
            let e = if j > i && v[j - 1] == '\r' {
                j - 1
            } else {
                j
            };
            out.push(string_of_range(&v, i, e));
            proof {
                assert(v@.subrange(i as int, e as int) =~= strip_cr(rest.take(j - i)));
                assert(rest.skip(j - i + 1) =~= v@.skip(j + 1));
                assert(strings_view(out@) =~= strings_view(before) + seq![
                    strip_cr(rest.take(j - i)),
                ]);
                assert(lines(v@) =~= strings_view(out@) + lines(v@.skip(j + 1)));
            }
            i = j + 1;
        }
    }
    proof {
        assert(v@.skip(i as int) =~= Seq::<char>::empty());
        assert(strings_view(out@) + lines(v@.skip(i as int)) =~= strings_view(out@));
    }
    out
}


/// The parts joined with `sep` between each two (`[..].join(sep)`).
pub open spec fn join(parts: Seq<Seq<char>>, sep: Seq<char>) -> Seq<char>
    decreases parts.len(),
{
    if parts.len() == 0 {
        seq![]
    } else if parts.len() == 1 {
        parts[0]
    } else {
        join(parts.drop_last(), sep) + sep + parts.last()
    }
}

/// The strings joined with `sep` between each two.
pub fn join_strings(parts: &Vec<String>, sep: &str) -> (r: String)
    ensures
        r@ == join(strings_view(parts@), sep@),
{
    let ghost all = strings_view(parts@);
    let mut r = String::new();
    let mut i: usize = 0;
    while i < parts.len()
        invariant
            i <= parts.len(),
            all == strings_view(parts@),
            r@ == join(all.take(i as int), sep@),
        decreases parts.len() - i,
    {
        proof {
            assert(all.take(i + 1).drop_last() =~= all.take(i as int));
        }
        if i != 0 {
            r.append(sep);
        } else {
            proof {
                assert(r@ + parts@[0]@ =~= parts@[0]@);
            }
        }
        r.append(parts[i].as_str());
        i = i + 1;
    }
    proof {
        assert(all.take(i as int) =~= all);
    }
    r
}

/// Whether `s` starts with `p`.
pub open spec fn starts_with(s: Seq<char>, p: Seq<char>) -> bool {
    p.len() <= s.len() && s.take(p.len() as int) == p
}

/// Whether `s` ends with `p`.
pub open spec fn ends_with<T>(s: Seq<T>, p: Seq<T>) -> bool {
    p.len() <= s.len() && s.skip(s.len() - p.len()) == p
}

/// Executable [`starts_with`] on characters.
pub fn has_prefix(s: &Vec<char>, p: &Vec<char>) -> (b: bool)
    ensures
        b == starts_with(s@, p@),
{
    if p.len() > s.len() {
        return false;
    }
    let mut i: usize = 0;
    while i < p.len()
        invariant
            p.len() <= s.len(),
            i <= p.len(),
            forall|k: int| 0 <= k < i ==> s@[k] == p@[k],
        decreases p.len() - i,
    {
        if s[i] != p[i] {
            proof {
                assert(s@.take(p@.len() as int)[i as int] != p@[i as int]);
            }
            return false;
        }
        i = i + 1;
    }
    proof {
        assert(s@.take(p@.len() as int) =~= p@);
    }
    true
}

/// `s` with every leading copy of the non-empty `p` removed
/// (`str::trim_start_matches` with a string pattern).
pub open spec fn trim_start_matches(s: Seq<char>, p: Seq<char>) -> Seq<char>
    decreases s.len(),
{
    if p.len() > 0 && starts_with(s, p) {
        trim_start_matches(s.skip(p.len() as int), p)
    } else {
        s
    }
}

/// Index where [`trim_start_matches`] of `v@[from..]` begins.
pub fn trim_prefix_copies(v: &Vec<char>, from: usize, p: &Vec<char>) -> (r: usize)
    requires
        from <= v.len(),
        p.len() > 0,
    ensures
        from <= r <= v.len(),
        v@.skip(r as int) == trim_start_matches(v@.skip(from as int), p@),
{
    let mut i = from;
    loop
        invariant
            from <= i <= v.len(),
            p.len() > 0,
            trim_start_matches(v@.skip(i as int), p@) == trim_start_matches(
                v@.skip(from as int),
                p@,
            ),
        decreases v.len() - i,
    {
        if p.len() > v.len() - i {
            return i;
        }
        let mut k: usize = 0;
        while k < p.len()
            invariant
                from <= i <= v.len(),
                p.len() > 0,
                trim_start_matches(v@.skip(i as int), p@) == trim_start_matches(
                    v@.skip(from as int),
                    p@,
                ),
                p.len() <= v.len() - i,
                k <= p.len(),
                forall|m: int| 0 <= m < k ==> v@[i + m] == p@[m],
            decreases p.len() - k,
        {
            if v[i + k] != p[k] {
                proof {
                    assert(v@.skip(i as int).take(p@.len() as int)[k as int] != p@[k as int]);
                }
                return i;
            }
            k = k + 1;
        }
        proof {
            assert(v@.skip(i as int).take(p@.len() as int) =~= p@);
            assert(v@.skip(i as int).skip(p@.len() as int) =~= v@.skip(i + p@.len()));
        }
        i = i + p.len();
    }
}

/// The decimal digit for `d < 10`.
pub open spec fn digit(d: nat) -> char {
    if d == 0 { '0' }
    else if d == 1 { '1' }
    else if d == 2 { '2' }
    else if d == 3 { '3' }
    else if d == 4 { '4' }
    else if d == 5 { '5' }
    else if d == 6 { '6' }
    else if d == 7 { '7' }
    else if d == 8 { '8' }
    else { '9' }
}

/// The decimal representation of `n`, without leading zeros.
pub open spec fn decimal(n: nat) -> Seq<char>
    decreases n,
{
    if n < 10 {
        seq![digit(n)]
    } else {
        decimal(n / 10).push(digit(n % 10))
    }
}

fn digit_char(d: u64) -> (c: char)
    requires
        d < 10,
    ensures
        c == digit(d as nat),
{
    if d == 0 { '0' }
    else if d == 1 { '1' }
    else if d == 2 { '2' }
    else if d == 3 { '3' }
    else if d == 4 { '4' }
    else if d == 5 { '5' }
    else if d == 6 { '6' }
    else if d == 7 { '7' }
    else if d == 8 { '8' }
    else { '9' }
}

/// The decimal representation of `n` (`n.to_string()`).
pub fn decimal_text(n: u64) -> (s: String)
    ensures
        s@ == decimal(n as nat),
    decreases n,
{
    if n < 10 {
        let mut s = String::new();
        s.push(digit_char(n));
        proof {
            assert(s@ =~= seq![digit(n as nat)]);
        }
        s
    } else {
        let mut s = decimal_text(n / 10);
        s.push(digit_char(n % 10));
        s
    }
}

/// `s` padded with spaces on the right to at least `width` characters, as
/// the `{:<width}` format gives it.
pub open spec fn pad_right(s: Seq<char>, width: nat) -> Seq<char> {
    if s.len() >= width {
        s
    } else {
        s + Seq::new((width - s.len()) as nat, |i: int| ' ')
    }
}

/// Appends `s` padded with spaces to at least `width` characters.
pub fn push_padded(out: &mut String, s: &str, width: usize)
    ensures
        final(out)@ == old(out)@ + pad_right(s@, width as nat),
{
    let v = chars_of(s);
    out.append(s);
    let ghost base = old(out)@ + s@;
    let mut n = v.len();
    while n < width
        invariant
            v.len() <= n <= width || n == v.len(),
            out@ == base + Seq::new((n - v.len()) as nat, |i: int| ' '),
        decreases width - n,
    {
        out.push(' ');
        proof {
            assert(base + Seq::new((n + 1 - v.len()) as nat, |i: int| ' ') =~= base + Seq::new(
                (n - v.len()) as nat,
                |i: int| ' ',
            ).push(' '));
        }
        n = n + 1;
    }
    proof {
        if v.len() >= width {
            assert(out@ =~= old(out)@ + s@);
        } else {
            assert(out@ =~= old(out)@ + pad_right(s@, width as nat));
        }
    }
}


/// Whether two texts hold the same characters.
pub fn same_text(a: &str, b: &str) -> (r: bool)
    ensures
        r == (a@ == b@),
{
    let x = chars_of(a);
    let y = chars_of(b);
    if x.len() != y.len() {
        return false;
    }
    let mut i: usize = 0;
    while i < x.len()
        invariant
            x@ == a@,
            y@ == b@,
            x.len() == y.len(),
            i <= x.len(),
            forall|k: int| 0 <= k < i ==> x@[k] == y@[k],
        decreases x.len() - i,
    {
        if x[i] != y[i] {
            proof {
                assert(a@[i as int] != b@[i as int]);
            }
            return false;
        }
        i = i + 1;
    }
    proof {
        assert(x@ =~= y@);
    }
    true
}

/// A copy of a vector of strings.
pub fn copy_strings(v: &Vec<String>) -> (r: Vec<String>)
    ensures
        strings_view(r@) == strings_view(v@),
{
    let mut r: Vec<String> = Vec::new();
    let mut i: usize = 0;
    while i < v.len()
        invariant
            i <= v.len(),
            strings_view(r@) == strings_view(v@).take(i as int),
        decreases v.len() - i,
    {
        let c = v[i].clone();
        proof {
            assert(c@ == v@[i as int]@);
        }
        let ghost before = r@;
        r.push(c);
        proof {
            assert(strings_view(r@) =~= strings_view(before).push(c@));
            assert(strings_view(r@) =~= strings_view(v@).take(i + 1));
        }
        i = i + 1;
    }
    proof {
        assert(strings_view(v@).take(i as int) =~= strings_view(v@));
    }
    r
}


proof fn lemma_trim_start_front(s: Seq<char>, class: CharClass)
    ensures
        trim_start_class(s, class).len() > 0 ==> !in_class(class, trim_start_class(s, class)[0]),
        trim_start_class(s, class).len() <= s.len(),
    decreases s.len(),
{
    if s.len() > 0 && in_class(class, s[0]) {
        lemma_trim_start_front(s.drop_first(), class);
    }
}

proof fn lemma_trim_end_back(s: Seq<char>, class: CharClass)
    ensures
        trim_end_class(s, class).len() > 0 ==> !in_class(class, trim_end_class(s, class).last()),
        trim_end_class(s, class) == s.take(trim_end_class(s, class).len() as int),
        trim_end_class(s, class).len() <= s.len(),
    decreases s.len(),
{
    if s.len() > 0 && in_class(class, s.last()) {
        lemma_trim_end_back(s.drop_last(), class);
        let t = trim_end_class(s.drop_last(), class);
        assert(s.drop_last().take(t.len() as int) =~= s.take(t.len() as int));
    } else {
        assert(s.take(s.len() as int) =~= s);
    }
}

/// A trimmed text neither starts nor ends with a character of the class,
/// and is a contiguous part of the original text.
pub proof fn law_trim_removes_class(s: Seq<char>, class: CharClass)
    ensures
        trim_class(s, class).len() > 0 ==> !in_class(class, trim_class(s, class)[0]),
        trim_class(s, class).len() > 0 ==> !in_class(class, trim_class(s, class).last()),
        exists|i: int|
            0 <= i && i + trim_class(s, class).len() <= s.len() && #[trigger] s.subrange(
                i,
                i + trim_class(s, class).len(),
            ) == trim_class(s, class),
{
    let t = trim_start_class(s, class);
    lemma_trim_start_front(s, class);
    lemma_trim_end_back(t, class);
    let r = trim_class(s, class);
    if r.len() > 0 {
        assert(r[0] == t[0]);
    }
    lemma_trim_start_suffix(s, class);
    let i = s.len() - t.len();
    assert(s.subrange(i, i + r.len()) =~= r);
}

proof fn lemma_trim_start_suffix(s: Seq<char>, class: CharClass)
    ensures
        trim_start_class(s, class) == s.skip(s.len() - trim_start_class(s, class).len()),
    decreases s.len(),
{
    if s.len() > 0 && in_class(class, s[0]) {
        lemma_trim_start_suffix(s.drop_first(), class);
        lemma_trim_start_front(s.drop_first(), class);
        let t = trim_start_class(s.drop_first(), class);
        assert(s.drop_first().skip(s.drop_first().len() - t.len()) =~= s.skip(s.len() - t.len()));
    } else {
        assert(s.skip(0) =~= s);
    }
}

proof fn lemma_word_chars(s: Seq<char>, k: int)
    requires
        0 <= k < word_len(s),
    ensures
        k < s.len(),
        !is_space(s[k]),
    decreases k,
{
    lemma_word_len_bound(s);
    if k > 0 {
        lemma_word_chars(s.drop_first(), k - 1);
    }
}

/// Every whitespace-separated field is non-empty and holds no whitespace.
pub proof fn law_fields_are_words(s: Seq<char>)
    ensures
        forall|i: int|
            0 <= i < fields(s).len() ==> (#[trigger] fields(s)[i]).len() > 0 && forall|k: int|
                0 <= k < fields(s)[i].len() ==> !is_space(#[trigger] fields(s)[i][k]),
    decreases s.len(),
{
    if s.len() == 0 {
    } else if is_space(s[0]) {
        law_fields_are_words(s.drop_first());
        assert(fields(s) == fields(s.drop_first()));
    } else {
        lemma_word_len_bound(s);
        let w = word_len(s) as int;
        law_fields_are_words(s.skip(w));
        let rest = fields(s.skip(w));
        assert(fields(s) == seq![s.take(w)] + rest);
        assert forall|i: int| 0 <= i < fields(s).len() implies (#[trigger] fields(s)[i]).len() > 0
            && forall|k: int| 0 <= k < fields(s)[i].len() ==> !is_space(#[trigger] fields(s)[i][k]) by {
            if i == 0 {
                assert(fields(s)[0] == s.take(w));
                assert forall|k: int| 0 <= k < fields(s)[0].len() implies !is_space(
                    #[trigger] fields(s)[0][k],
                ) by {
                    lemma_word_chars(s, k);
                }
            } else {
                assert(fields(s)[i] == rest[i - 1]);
            }
        }
    }
}


/// The number a sequence of decimal digits stands for.
pub open spec fn digits_value(s: Seq<char>) -> nat
    decreases s.len(),
{
    if s.len() == 0 {
        0
    } else {
        digits_value(s.drop_last()) * 10 + ((s.last() as u32) - 48) as nat
    }
}

/// Each digit is the ASCII character `'0'` plus its value.
pub proof fn law_digit_chars(d: nat)
    requires
        d < 10,
    ensures
        digit(d) as u32 == 48 + d,
{
}

/// The decimal text of a number is made of the ASCII digits `'0'` to
/// `'9'`, has no leading zero, and reads back as the number.
pub proof fn law_decimal_reads_back(n: nat)
    ensures
        digits_value(decimal(n)) == n,
        decimal(n).len() > 0,
        n > 0 ==> decimal(n)[0] != '0',
        forall|i: int| 0 <= i < decimal(n).len() ==> 48 <= (#[trigger] decimal(n)[i]) as u32 <= 57,
    decreases n,
{
    if n < 10 {
        law_digit_chars(n);
        let s = decimal(n);
        assert(s.drop_last() =~= Seq::<char>::empty());
        assert(digits_value(s.drop_last()) == 0);
        assert(s.last() == digit(n));
    } else {
        law_decimal_reads_back(n / 10);
        law_digit_chars(n % 10);
        let s = decimal(n);
        assert(s.drop_last() =~= decimal(n / 10));
        assert(s.last() == digit(n % 10));
        assert(n == (n / 10) * 10 + n % 10);
        assert(digits_value(s) == digits_value(decimal(n / 10)) * 10 + (n % 10));
        assert forall|i: int| 0 <= i < s.len() implies 48 <= (#[trigger] s[i]) as u32 <= 57 by {
            if i < s.len() - 1 {
                assert(s[i] == decimal(n / 10)[i]);
            }
        }
        assert(s[0] == decimal(n / 10)[0]);
    }
}

/// Some characters `char::is_whitespace` holds for (space, tab, line feed,
/// carriage return, no-break space, ideographic space) and some it does not
/// (a letter, a digit, the zero-width space).
pub proof fn law_space_examples()
    ensures
        is_space(' '),
        is_space('\t'),
        is_space('\n'),
        is_space('\r'),
        is_space('\u{a0}'),
        is_space('\u{3000}'),
        is_space('\u{2028}'),
        !is_space('a'),
        !is_space('0'),
        !is_space('\u{200b}'),
        !is_space('\u{1f}'),
{
}

} // verus!
