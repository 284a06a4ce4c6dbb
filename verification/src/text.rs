//! Character-level text scanning: the splitting, line breaking, tokenizing and
//! trimming rules that the request parser applies to the decoded header block.
use vstd::prelude::*;

verus! {

// ---------------------------------------------------------------------------
// First occurrence of a character
// ---------------------------------------------------------------------------

/// `i` is the position of the first `c` in `s`.
pub open spec fn is_first_of(s: Seq<char>, c: char, i: int) -> bool {
    &&& 0 <= i < s.len()
    &&& s[i] == c
    &&& forall|j: int| 0 <= j < i ==> s[j] != c
}

/// The position of the first `c` in `s`, if `s` holds one.
pub open spec fn index_of(s: Seq<char>, c: char) -> Option<int> {
    if exists|i: int| is_first_of(s, c, i) {
        Some(choose|i: int| is_first_of(s, c, i))
    } else {
        None
    }
}

/// The first `c` found by a scan is the one `index_of` names.
pub proof fn lemma_index_of_found(s: Seq<char>, c: char, i: int)
    requires
        is_first_of(s, c, i),
    ensures
        index_of(s, c) == Some(i),
{
    let k = choose|k: int| is_first_of(s, c, k);
    assert(is_first_of(s, c, k));
    if k < i {
        assert(s[k] != c);
    }
    if i < k {
        assert(s[i] != c);
    }
}

/// Text without `c` has no first `c`.
pub proof fn lemma_index_of_absent(s: Seq<char>, c: char)
    requires
        forall|j: int| 0 <= j < s.len() ==> s[j] != c,
    ensures
        index_of(s, c) is None,
{
    assert forall|i: int| !is_first_of(s, c, i) by {
        if 0 <= i < s.len() {
            assert(s[i] != c);
        }
    }
}

/// The position of the first `c` in `v` at or after `from`.
pub fn find_char_from(v: &Vec<char>, from: usize, c: char) -> (res: Option<usize>)
    requires
        from <= v@.len(),
    ensures
        match res {
            Some(i) => from <= i < v@.len() && index_of(v@.skip(from as int), c) == Some(
                i - from,
            ),
            None => index_of(v@.skip(from as int), c) is None,
        },
{
    let len = v.len();
    let mut i = from;
    while i < len
        invariant
            len == v@.len(),
            from <= i <= len,
            forall|j: int| from <= j < i ==> v@[j] != c,
        decreases len - i,
    {
        if v[i] == c {
            proof {
                let s = v@.skip(from as int);
                assert(is_first_of(s, c, i - from));
                lemma_index_of_found(s, c, i - from);
            }
            return Some(i);
        }
        i = i + 1;
    }
    proof {
        let s = v@.skip(from as int);
        assert forall|j: int| 0 <= j < s.len() implies s[j] != c by {
            assert(s[j] == v@[from + j]);
        }
        lemma_index_of_absent(s, c);
    }
    None
}

// ---------------------------------------------------------------------------
// Splitting on a separator
// ---------------------------------------------------------------------------

/// The pieces of `s` between occurrences of `sep`, empty pieces included:
/// `n` separators give `n + 1` pieces.
pub open spec fn split_on(s: Seq<char>, sep: char) -> Seq<Seq<char>>
    decreases s.len(),
{
    match index_of(s, sep) {
        Some(i) => seq![s.take(i)] + split_on(s.skip(i + 1), sep),
        None => seq![s],
    }
}

/// A copy of `v[from..to]`.
pub fn copy_range(v: &Vec<char>, from: usize, to: usize) -> (res: Vec<char>)
    requires
        from <= to <= v@.len(),
    ensures
        res@ == v@.subrange(from as int, to as int),
{
    let mut out: Vec<char> = Vec::new();
    let mut i = from;
    while i < to
        invariant
            from <= i <= to <= v@.len(),
            out@ == v@.subrange(from as int, i as int),
        decreases to - i,
    {
        out.push(v[i]);
        proof {
            assert(out@ =~= v@.subrange(from as int, i + 1));
        }
        i = i + 1;
    }
    out
}

/// The pieces of `v` between occurrences of `sep`.
pub fn split_on_char(v: &Vec<char>, sep: char) -> (res: Vec<Vec<char>>)
    ensures
        res.deep_view() == split_on(v@, sep),
{
    let len = v.len();
    let mut out: Vec<Vec<char>> = Vec::new();
    let mut start: usize = 0;
    proof {
        assert(v@.skip(0) =~= v@);
        assert(out.deep_view() =~= Seq::<Seq<char>>::empty());
    }
    loop
        invariant
            len == v@.len(),
            start <= len,
            out.deep_view() + split_on(v@.skip(start as int), sep) == split_on(v@, sep),
        decreases len - start,
    {
        let ghost rest = v@.skip(start as int);
        match find_char_from(v, start, sep) {
            Some(i) => {
                let piece = copy_range(v, start, i);
                let ghost old_out = out.deep_view();
                out.push(piece);
                proof {
                    assert(rest.take(i - start) =~= v@.subrange(start as int, i as int));
                    assert(rest.skip(i - start + 1) =~= v@.skip(i + 1));
                    assert(split_on(rest, sep) == seq![rest.take(i - start)] + split_on(
                        rest.skip(i - start + 1),
                        sep,
                    ));
                    assert(piece.deep_view() =~= piece@);
                    assert(out.deep_view() =~= old_out.push(piece@));
                    assert(old_out.push(piece@) + split_on(v@.skip(i + 1), sep) =~= old_out
                        + split_on(rest, sep));
                }
                start = i + 1;
            },
            None => {
                let piece = copy_range(v, start, len);
                let ghost old_out = out.deep_view();
                out.push(piece);
                proof {
                    assert(rest =~= v@.subrange(start as int, len as int));
                    assert(split_on(rest, sep) == seq![rest]);
                    assert(piece.deep_view() =~= piece@);
                    assert(out.deep_view() =~= old_out.push(piece@));
                    assert(old_out + split_on(rest, sep) =~= old_out.push(piece@));
                }
                return out;
            },
        }
    }
}


// ---------------------------------------------------------------------------
// Lines
// ---------------------------------------------------------------------------

/// `t` without one trailing carriage return.
pub open spec fn strip_cr(t: Seq<char>) -> Seq<char> {
    if t.len() > 0 && t.last() == '\r' {
        t.drop_last()
    } else {
        t
    }
}

/// The lines of `s`: the pieces between line feeds, each without the carriage
/// return that stood just before its line feed. A final line feed does not
/// start another (empty) line, and the empty text has no lines.
pub open spec fn lines(s: Seq<char>) -> Seq<Seq<char>>
    decreases s.len(),
{
    if s.len() == 0 {
        seq![]
    } else {
        match index_of(s, '\n') {
            Some(i) => seq![strip_cr(s.take(i))] + lines(s.skip(i + 1)),
            None => seq![s],
        }
    }
}

/// The lines of `v`.
pub fn lines_of(v: &Vec<char>) -> (res: Vec<Vec<char>>)
    ensures
        res.deep_view() == lines(v@),
{
    let len = v.len();
    let mut out: Vec<Vec<char>> = Vec::new();
    let mut start: usize = 0;
    proof {
        assert(v@.skip(0) =~= v@);
        assert(out.deep_view() =~= Seq::<Seq<char>>::empty());
    }
    while start < len
        invariant
            len == v@.len(),
            start <= len,
            out.deep_view() + lines(v@.skip(start as int)) == lines(v@),
        decreases len - start,
    {
        let ghost rest = v@.skip(start as int);
        let ghost old_out = out.deep_view();
        match find_char_from(v, start, '\n') {
            Some(i) => {
                let mut piece = copy_range(v, start, i);
                let plen = piece.len();
                if plen > 0 && piece[plen - 1] == '\r' {
                    piece.pop();
                }
                out.push(piece);
                proof {
                    assert(rest.take(i - start) =~= v@.subrange(start as int, i as int));
                    assert(rest.skip(i - start + 1) =~= v@.skip(i + 1));
                    assert(piece@ =~= strip_cr(rest.take(i - start)));
                    assert(piece.deep_view() =~= piece@);
                    assert(out.deep_view() =~= old_out.push(piece@));
                    assert(old_out.push(piece@) + lines(v@.skip(i + 1)) =~= old_out + lines(
                        rest,
                    ));
                }
                start = i + 1;
            },
            None => {
                let piece = copy_range(v, start, len);
                out.push(piece);
                proof {
                    assert(rest =~= v@.subrange(start as int, len as int));
                    assert(piece.deep_view() =~= piece@);
                    assert(out.deep_view() =~= old_out.push(piece@));
                    assert(old_out + lines(rest) =~= old_out.push(piece@));
                    assert(v@.skip(len as int) =~= Seq::<char>::empty());
                }
                start = len;
            },
        }
    }
    proof {
        assert(v@.skip(len as int) =~= Seq::<char>::empty());
        assert(out.deep_view() + Seq::<Seq<char>>::empty() =~= out.deep_view());
    }
    out
}

// ---------------------------------------------------------------------------
// The first CR LF
// ---------------------------------------------------------------------------

/// `\r\n` starts at `i` in `s`.
pub open spec fn is_crlf_at(s: Seq<char>, i: int) -> bool {
    0 <= i && i + 1 < s.len() && s[i] == '\r' && s[i + 1] == '\n'
}

/// `i` is where the first `\r\n` of `s` starts.
pub open spec fn is_first_crlf(s: Seq<char>, i: int) -> bool {
    &&& is_crlf_at(s, i)
    &&& forall|j: int| 0 <= j < i ==> !is_crlf_at(s, j)
}

/// The position of the first `\r\n` in `s`.
pub open spec fn crlf_index(s: Seq<char>) -> Option<int> {
    if exists|i: int| is_first_crlf(s, i) {
        Some(choose|i: int| is_first_crlf(s, i))
    } else {
        None
    }
}

/// The position of the first `\r\n` in `v`.
pub fn find_crlf(v: &Vec<char>) -> (res: Option<usize>)
    ensures
        match res {
            Some(i) => crlf_index(v@) == Some(i as int) && is_first_crlf(v@, i as int),
            None => crlf_index(v@) is None,
        },
{
    let len = v.len();
    let mut i: usize = 0;
    while len > 0 && i < len - 1
        invariant
            len == v@.len(),
            forall|j: int| 0 <= j < i ==> !is_crlf_at(v@, j),
        decreases len - i,
    {
        if v[i] == '\r' && v[i + 1] == '\n' {
            proof {
                assert(is_first_crlf(v@, i as int));
                let k = choose|k: int| is_first_crlf(v@, k);
                assert(is_first_crlf(v@, k));
                if k < i {
                    assert(!is_crlf_at(v@, k));
                }
                if i < k {
                    assert(!is_crlf_at(v@, i as int));
                }
            }
            return Some(i);
        }
        i = i + 1;
    }
    proof {
        assert forall|j: int| !is_first_crlf(v@, j) by {
            if is_first_crlf(v@, j) {
                assert(!is_crlf_at(v@, j));
            }
        }
    }
    None
}

// ---------------------------------------------------------------------------
// Words separated by ASCII white space
// ---------------------------------------------------------------------------

/// The white space that separates words: space, tab, line feed, form feed
/// and carriage return.
pub open spec fn is_ascii_ws(c: char) -> bool {
    c == ' ' || c == '\t' || c == '\n' || c == '\x0C' || c == '\r'
}

/// `i` is the position of the first ASCII white space in `s`.
pub open spec fn is_first_ws(s: Seq<char>, i: int) -> bool {
    &&& 0 <= i < s.len()
    &&& is_ascii_ws(s[i])
    &&& forall|j: int| 0 <= j < i ==> !is_ascii_ws(s[j])
}

/// The length of the word at the start of `s`: up to the first white space.
pub open spec fn word_len(s: Seq<char>) -> int {
    if exists|i: int| is_first_ws(s, i) {
        choose|i: int| is_first_ws(s, i)
    } else {
        s.len() as int
    }
}

/// The words of `s`: the maximal runs of characters that are not ASCII white
/// space, in order.
pub open spec fn words(s: Seq<char>) -> Seq<Seq<char>>
    decreases s.len(),
{
    if s.len() == 0 {
        seq![]
    } else if is_ascii_ws(s[0]) {
        words(s.skip(1))
    } else {
        let n = word_len(s);
        seq![s.take(n)] + words(s.skip(n))
    }
}

proof fn lemma_word_len(s: Seq<char>, n: int)
    requires
        0 < n <= s.len(),
        forall|j: int| 0 <= j < n ==> !is_ascii_ws(s[j]),
        n < s.len() ==> is_ascii_ws(s[n]),
    ensures
        word_len(s) == n,
{
    if n < s.len() {
        assert(is_first_ws(s, n));
        let k = choose|k: int| is_first_ws(s, k);
        assert(is_first_ws(s, k));
        if k < n {
            assert(!is_ascii_ws(s[k]));
        }
        if n < k {
            assert(!is_ascii_ws(s[n]));
        }
    } else {
        assert forall|i: int| !is_first_ws(s, i) by {
            if is_first_ws(s, i) {
                assert(!is_ascii_ws(s[i]));
            }
        }
    }
}

/// The words of `v`.
pub fn words_of(v: &Vec<char>) -> (res: Vec<Vec<char>>)
    ensures
        res.deep_view() == words(v@),
{
    let len = v.len();
    let mut out: Vec<Vec<char>> = Vec::new();
    let mut i: usize = 0;
    proof {
        assert(v@.skip(0) =~= v@);
        assert(out.deep_view() =~= Seq::<Seq<char>>::empty());
    }
    while i < len
        invariant
            len == v@.len(),
            i <= len,
            out.deep_view() + words(v@.skip(i as int)) == words(v@),
        decreases len - i,
    {
        let ghost rest = v@.skip(i as int);
        let c = v[i];
        if c == ' ' || c == '\t' || c == '\n' || c == '\x0C' || c == '\r' {
            proof {
                assert(rest.skip(1) =~= v@.skip(i + 1));
            }
            i = i + 1;
        } else {
            let mut j = i + 1;
            while j < len
                invariant
                    len == v@.len(),
                    i < j <= len,
                    forall|k: int| i <= k < j ==> !is_ascii_ws(v@[k]),
                ensures
                    i < j <= len,
                    forall|k: int| i <= k < j ==> !is_ascii_ws(v@[k]),
                    j < len ==> is_ascii_ws(v@[j as int]),
                decreases len - j,
            {
                let d = v[j];
                if d == ' ' || d == '\t' || d == '\n' || d == '\x0C' || d == '\r' {
                    break;
                }
                j = j + 1;
            }
            let ghost old_out = out.deep_view();
            let piece = copy_range(v, i, j);
            out.push(piece);
            proof {
                lemma_word_len(rest, j - i);
                assert(rest.take(j - i) =~= v@.subrange(i as int, j as int));
                assert(rest.skip(j - i) =~= v@.skip(j as int));
                assert(piece.deep_view() =~= piece@);
                assert(out.deep_view() =~= old_out.push(piece@));
                assert(old_out.push(piece@) + words(v@.skip(j as int)) =~= old_out + words(rest));
            }
            i = j;
        }
    }
    proof {
        assert(v@.skip(len as int) =~= Seq::<char>::empty());
        assert(out.deep_view() + Seq::<Seq<char>>::empty() =~= out.deep_view());
    }
    out
}


// ---------------------------------------------------------------------------
// Trimming Unicode white space
// ---------------------------------------------------------------------------

/// The characters with the Unicode `White_Space` property.
pub open spec fn is_unicode_ws(c: char) -> bool {
    ||| '\u{9}' <= c <= '\u{D}'
    ||| c == ' '
    ||| c == '\u{85}'
    ||| c == '\u{A0}'
    ||| c == '\u{1680}'
    ||| '\u{2000}' <= c <= '\u{200A}'
    ||| c == '\u{2028}'
    ||| c == '\u{2029}'
    ||| c == '\u{202F}'
    ||| c == '\u{205F}'
    ||| c == '\u{3000}'
}

fn exec_is_unicode_ws(c: char) -> (res: bool)
    ensures
        res == is_unicode_ws(c),
{
    ('\u{9}' <= c && c <= '\u{D}') || c == ' ' || c == '\u{85}' || c == '\u{A0}' || c
        == '\u{1680}' || ('\u{2000}' <= c && c <= '\u{200A}') || c == '\u{2028}' || c
        == '\u{2029}' || c == '\u{202F}' || c == '\u{205F}' || c == '\u{3000}'
}

/// `s` without its leading white space.
pub open spec fn trim_start(s: Seq<char>) -> Seq<char>
    decreases s.len(),
{
    if s.len() > 0 && is_unicode_ws(s[0]) {
        trim_start(s.skip(1))
    } else {
        s
    }
}

/// `s` without its trailing white space.
pub open spec fn trim_end(s: Seq<char>) -> Seq<char>
    decreases s.len(),
{
    if s.len() > 0 && is_unicode_ws(s.last()) {
        trim_end(s.drop_last())
    } else {
        s
    }
}

/// `s` without leading and trailing white space.
pub open spec fn trim(s: Seq<char>) -> Seq<char> {
    trim_end(trim_start(s))
}

proof fn lemma_trim_start(s: Seq<char>, a: int)
    requires
        0 <= a <= s.len(),
        forall|j: int| 0 <= j < a ==> is_unicode_ws(s[j]),
        a < s.len() ==> !is_unicode_ws(s[a]),
    ensures
        trim_start(s) == s.skip(a),
    decreases a,
{
    if a == 0 {
        assert(s.skip(0) =~= s);
    } else {
        let t = s.skip(1);
        assert forall|j: int| 0 <= j < a - 1 implies is_unicode_ws(t[j]) by {
            assert(t[j] == s[j + 1]);
        }
        lemma_trim_start(t, a - 1);
        assert(t.skip(a - 1) =~= s.skip(a));
    }
}

proof fn lemma_trim_end(s: Seq<char>, b: int)
    requires
        0 <= b <= s.len(),
        forall|j: int| b <= j < s.len() ==> is_unicode_ws(s[j]),
        b > 0 ==> !is_unicode_ws(s[b - 1]),
    ensures
        trim_end(s) == s.take(b),
    decreases s.len() - b,
{
    if b == s.len() {
        assert(s.take(b) =~= s);
    } else {
        let t = s.drop_last();
        lemma_trim_end(t, b);
        assert(t.take(b) =~= s.take(b));
    }
}

/// Text that neither starts nor ends with white space is its own trim.
pub proof fn lemma_trim_none(s: Seq<char>)
    requires
        s.len() > 0 ==> !is_unicode_ws(s[0]) && !is_unicode_ws(s.last()),
    ensures
        trim(s) == s,
{
    lemma_trim_start(s, 0);
    assert(s.skip(0) =~= s);
    lemma_trim_end(s, s.len() as int);
    assert(s.take(s.len() as int) =~= s);
}

/// Trimming removes exactly the white space around the text: any leading
/// and trailing white space goes, and text that neither starts nor ends with
/// white space is kept whole, inner white space included.
pub proof fn lemma_trim_exact(pre: Seq<char>, core: Seq<char>, post: Seq<char>)
    requires
        forall|j: int| 0 <= j < pre.len() ==> is_unicode_ws(#[trigger] pre[j]),
        forall|j: int| 0 <= j < post.len() ==> is_unicode_ws(#[trigger] post[j]),
        core.len() > 0 ==> !is_unicode_ws(core[0]) && !is_unicode_ws(core.last()),
    ensures
        trim(pre + core + post) == core,
{
    let s = pre + core + post;
    if core.len() > 0 {
        assert forall|j: int| 0 <= j < pre.len() implies is_unicode_ws(s[j]) by {
            assert(s[j] == pre[j]);
        }
        assert(s[pre.len() as int] == core[0]);
        lemma_trim_start(s, pre.len() as int);
        let t = s.skip(pre.len() as int);
        assert(t =~= core + post);
        assert forall|j: int| core.len() <= j < t.len() implies is_unicode_ws(t[j]) by {
            assert(t[j] == post[j - core.len()]);
        }
        assert(t[core.len() - 1] == core.last());
        lemma_trim_end(t, core.len() as int);
        assert(t.take(core.len() as int) =~= core);
    } else {
        assert forall|j: int| 0 <= j < s.len() implies is_unicode_ws(s[j]) by {
            if j < pre.len() {
                assert(s[j] == pre[j]);
            } else {
                assert(s[j] == post[j - pre.len()]);
            }
        }
        lemma_trim_start(s, s.len() as int);
        assert(s.skip(s.len() as int) =~= Seq::<char>::empty());
    }
}

/// `v` without leading and trailing Unicode white space.
pub fn trim_chars(v: &Vec<char>) -> (res: Vec<char>)
    ensures
        res@ == trim(v@),
{
    let len = v.len();
    let mut a: usize = 0;
    while a < len
        invariant
            len == v@.len(),
            a <= len,
            forall|j: int| 0 <= j < a ==> is_unicode_ws(v@[j]),
        ensures
            a <= len,
            forall|j: int| 0 <= j < a ==> is_unicode_ws(v@[j]),
            a < len ==> !is_unicode_ws(v@[a as int]),
        decreases len - a,
    {
        if !exec_is_unicode_ws(v[a]) {
            break;
        }
        a = a + 1;
    }
    let mut b: usize = len;
    while b > a
        invariant
            len == v@.len(),
            a <= b <= len,
            forall|j: int| b <= j < len ==> is_unicode_ws(v@[j]),
        ensures
            a <= b <= len,
            forall|j: int| b <= j < len ==> is_unicode_ws(v@[j]),
            b > a ==> !is_unicode_ws(v@[b - 1]),
        decreases b,
    {
        if !exec_is_unicode_ws(v[b - 1]) {
            break;
        }
        b = b - 1;
    }
    proof {
        lemma_trim_start(v@, a as int);
        let t = v@.skip(a as int);
        assert forall|j: int| b - a <= j < t.len() implies is_unicode_ws(t[j]) by {
            assert(t[j] == v@[a + j]);
        }
        lemma_trim_end(t, b - a);
        assert(t.take(b - a) =~= v@.subrange(a as int, b as int));
    }
    copy_range(v, a, b)
}


// ---------------------------------------------------------------------------
// Joining with a separator
// ---------------------------------------------------------------------------

/// The pieces one after another with `sep` between neighbours.
pub open spec fn join(parts: Seq<Seq<char>>, sep: Seq<char>) -> Seq<char>
    decreases parts.len(),
{
    if parts.len() == 0 {
        seq![]
    } else if parts.len() == 1 {
        parts[0]
    } else {
        join(parts.drop_last(), sep) + sep + parts.last()
    }
}


/// Words written one after another with single spaces between them read
/// back as the same words: a word is every maximal run of characters that are
/// not white space, kept whole and in order.
pub proof fn lemma_words_join(parts: Seq<Seq<char>>)
    requires
        forall|k: int| 0 <= k < parts.len() ==> (#[trigger] parts[k]).len() > 0,
        forall|k: int, j: int|
            0 <= k < parts.len() && 0 <= j < parts[k].len() ==> !is_ascii_ws(
                #[trigger] parts[k][j],
            ),
    ensures
        words(join(parts, seq![' '])) == parts,
    decreases parts.len(),
{
    let sp = seq![' '];
    if parts.len() == 0 {
        assert(words(join(parts, sp)) =~= parts);
    } else if parts.len() == 1 {
        let p = parts[0];
        assert(join(parts, sp) == p);
        assert(!is_ascii_ws(p[0]) && p.len() > 0);
        assert forall|j: int| 0 <= j < p.len() implies !is_ascii_ws(p[j]) by {
            assert(!is_ascii_ws(parts[0][j]));
        }
        lemma_word_len(p, p.len() as int);
        assert(p.take(p.len() as int) =~= p);
        assert(p.skip(p.len() as int) =~= Seq::<char>::empty());
        assert(words(Seq::<char>::empty()) == Seq::<Seq<char>>::empty());
        assert(words(p) == seq![p.take(p.len() as int)] + words(p.skip(p.len() as int)));
        assert(words(p) =~= seq![p] + Seq::<Seq<char>>::empty());
        assert(words(p) =~= parts);
    } else {
        let p = parts[0];
        let rest = parts.skip(1);
        lemma_join_front(parts, sp);
        let r = join(rest, sp);
        let s = p + sp + r;
        assert(join(parts, sp) == s);
        assert forall|k: int| 0 <= k < rest.len() implies (#[trigger] rest[k]).len() > 0 by {
            assert(rest[k] == parts[k + 1]);
        }
        assert forall|k: int, j: int|
            0 <= k < rest.len() && 0 <= j < rest[k].len() implies !is_ascii_ws(
                #[trigger] rest[k][j],
            ) by {
            assert(rest[k] == parts[k + 1]);
            assert(!is_ascii_ws(parts[k + 1][j]));
        }
        lemma_words_join(rest);
        assert(p.len() > 0);
        assert forall|j: int| 0 <= j < p.len() implies !is_ascii_ws(s[j]) by {
            assert(s[j] == p[j]);
            assert(!is_ascii_ws(parts[0][j]));
        }
        assert(s[p.len() as int] == ' ');
        assert(!is_ascii_ws(s[0]));
        lemma_word_len(s, p.len() as int);
        assert(s.take(p.len() as int) =~= p);
        let t = s.skip(p.len() as int);
        assert(t =~= sp + r);
        assert(is_ascii_ws(t[0]));
        assert(t.skip(1) =~= r);
        assert(words(t) == words(r));
        assert(words(s) == seq![p] + words(t));
        assert(words(s) =~= parts);
    }
}

/// A join of two or more pieces is the first piece, the separator and the
/// join of the rest.
pub proof fn lemma_join_front(parts: Seq<Seq<char>>, sep: Seq<char>)
    requires
        parts.len() >= 2,
    ensures
        join(parts, sep) == parts[0] + sep + join(parts.skip(1), sep),
    decreases parts.len(),
{
    if parts.len() == 2 {
        assert(parts.drop_last().len() == 1);
        assert(parts.skip(1).len() == 1);
        assert(join(parts.skip(1), sep) == parts[1]);
        assert(join(parts.drop_last(), sep) == parts[0]);
        assert(parts.last() == parts[1]);
    } else {
        let d = parts.drop_last();
        lemma_join_front(d, sep);
        assert(d.skip(1) =~= parts.skip(1).drop_last());
        assert(parts.skip(1).last() == parts.last());
        assert(join(parts, sep) =~= parts[0] + sep + join(parts.skip(1), sep));
    }
}

proof fn lemma_split_no_sep(a: Seq<char>, c: char)
    requires
        !a.contains(c),
    ensures
        split_on(a, c) == seq![a],
{
    assert forall|j: int| 0 <= j < a.len() implies a[j] != c by {
        if a[j] == c {
            assert(a.contains(c));
        }
    }
    lemma_index_of_absent(a, c);
}

proof fn lemma_split_first_piece(a: Seq<char>, c: char, b: Seq<char>)
    requires
        !a.contains(c),
    ensures
        split_on(a + seq![c] + b, c) == seq![a] + split_on(b, c),
{
    let s = a + seq![c] + b;
    assert forall|j: int| 0 <= j < a.len() implies s[j] != c by {
        assert(s[j] == a[j]);
        if a[j] == c {
            assert(a.contains(c));
        }
    }
    assert(is_first_of(s, c, a.len() as int));
    lemma_index_of_found(s, c, a.len() as int);
    assert(s.take(a.len() as int) =~= a);
    assert(s.skip(a.len() as int + 1) =~= b);
}

/// Splitting joined pieces at the separator gives the pieces back, when there
/// is at least one piece and no piece holds the separator.
pub proof fn lemma_split_join(parts: Seq<Seq<char>>, c: char)
    requires
        parts.len() > 0,
        forall|i: int| 0 <= i < parts.len() ==> !(#[trigger] parts[i]).contains(c),
    ensures
        split_on(join(parts, seq![c]), c) == parts,
    decreases parts.len(),
{
    if parts.len() == 1 {
        lemma_split_no_sep(parts[0], c);
        assert(seq![parts[0]] =~= parts);
    } else {
        let rest = parts.skip(1);
        lemma_join_front(parts, seq![c]);
        assert forall|i: int| 0 <= i < rest.len() implies !(#[trigger] rest[i]).contains(c) by {
            assert(rest[i] == parts[i + 1]);
        }
        lemma_split_join(rest, c);
        assert(!parts[0].contains(c));
        lemma_split_first_piece(parts[0], c, join(rest, seq![c]));
        assert(seq![parts[0]] + rest =~= parts);
    }
}


/// Breaking into lines the text made of non-empty lines without line feeds,
/// joined with `\r\n`, gives the lines back.
pub proof fn lemma_lines_join(ls: Seq<Seq<char>>)
    requires
        ls.len() > 0,
        forall|i: int| 0 <= i < ls.len() ==> (#[trigger] ls[i]).len() > 0 && !ls[i].contains('\n'),
    ensures
        lines(join(ls, seq!['\r', '\n'])) == ls,
    decreases ls.len(),
{
    let sep = seq!['\r', '\n'];
    let a = ls[0];
    assert(a.len() > 0 && !a.contains('\n'));
    assert forall|j: int| 0 <= j < a.len() implies a[j] != '\n' by {
        if a[j] == '\n' {
            assert(a.contains('\n'));
        }
    }
    if ls.len() == 1 {
        lemma_index_of_absent(a, '\n');
        assert(seq![a] =~= ls);
    } else {
        let rest = ls.skip(1);
        lemma_join_front(ls, sep);
        assert forall|i: int| 0 <= i < rest.len() implies (#[trigger] rest[i]).len() > 0
            && !rest[i].contains('\n') by {
            assert(rest[i] == ls[i + 1]);
        }
        lemma_lines_join(rest);
        let b = join(rest, sep);
        let s = a + sep + b;
        assert forall|j: int| 0 <= j < a.len() + 1 implies s[j] != '\n' by {
            if j < a.len() {
                assert(s[j] == a[j]);
            } else {
                assert(s[j] == '\r');
            }
        }
        assert(s[a.len() as int + 1] == '\n');
        assert(is_first_of(s, '\n', a.len() as int + 1));
        lemma_index_of_found(s, '\n', a.len() as int + 1);
        assert(s.take(a.len() as int + 1) =~= a.push('\r'));
        assert(strip_cr(a.push('\r')) =~= a);
        assert(s.skip(a.len() as int + 2) =~= b);
        assert(seq![a] + rest =~= ls);
    }
}

/// Putting text in front of the first piece puts it in front of the join.
pub proof fn lemma_join_prefix_first(parts: Seq<Seq<char>>, sep: Seq<char>, p: Seq<char>)
    requires
        parts.len() > 0,
    ensures
        join(parts.update(0, p + parts[0]), sep) == p + join(parts, sep),
    decreases parts.len(),
{
    let q = parts.update(0, p + parts[0]);
    if parts.len() == 1 {
    } else {
        lemma_join_prefix_first(parts.drop_last(), sep, p);
        assert(q.drop_last() =~= parts.drop_last().update(0, p + parts.drop_last()[0]));
        assert(q.last() == parts.last());
        assert(join(q, sep) =~= p + join(parts, sep));
    }
}


/// Joining pieces that lack `c` with a separator other than `c` gives text
/// that lacks `c`.
pub proof fn lemma_join_no_char(parts: Seq<Seq<char>>, sep: char, c: char)
    requires
        sep != c,
        forall|i: int| 0 <= i < parts.len() ==> !(#[trigger] parts[i]).contains(c),
    ensures
        !join(parts, seq![sep]).contains(c),
    decreases parts.len(),
{
    if parts.len() == 0 {
    } else if parts.len() == 1 {
        assert(!parts[0].contains(c));
    } else {
        let d = parts.drop_last();
        assert forall|i: int| 0 <= i < d.len() implies !(#[trigger] d[i]).contains(c) by {
            assert(d[i] == parts[i]);
        }
        lemma_join_no_char(d, sep, c);
        let a = join(d, seq![sep]);
        let b = parts.last();
        assert(!b.contains(c)) by {
            assert(b == parts[parts.len() - 1]);
        }
        let s = a + seq![sep] + b;
        if s.contains(c) {
            let t = choose|t: int| 0 <= t < s.len() && s[t] == c;
            if t < a.len() {
                assert(s[t] == a[t]);
                assert(a.contains(c));
            } else if t == a.len() {
                assert(s[t] == sep);
            } else {
                assert(s[t] == b[t - a.len() - 1]);
                assert(b.contains(c));
            }
        }
    }
}

} // verus!
