//! Text building blocks: splitting, replacing, lines, columns, side-by-side layout.

use vstd::prelude::*;

verus! {

/// `String::push` (std): appends `ch` to the string, so that its characters afterwards are
/// those before with `ch` added at the end, as std documents it.
pub assume_specification[ String::push ](s: &mut String, ch: char)
    ensures
        final(s)@ == old(s)@.push(ch),
;

/// The characters of a list of character vectors.
pub open spec fn views(v: Seq<Vec<char>>) -> Seq<Seq<char>> {
    v.map_values(|l: Vec<char>| l@)
}

/// The characters of a list of strings.
pub open spec fn string_views(v: Seq<String>) -> Seq<Seq<char>> {
    v.map_values(|l: String| l@)
}

/// The characters of a string slice, in order.
pub fn chars_of(s: &str) -> (chars: Vec<char>)
    ensures
        chars@ == s@,
{
    broadcast use vstd::string::group_string_axioms;

    let mut chars: Vec<char> = Vec::new();
    for c in it: s.chars()
        invariant
            chars@ == it.seq().take(it.index() as int),
            it.seq() == s@,
    {
        chars.push(c);
    }
    chars
}

/// A string made of the characters `chars`.
pub fn string_of(chars: &Vec<char>) -> (s: String)
    ensures
        s@ == chars@,
{
    let mut s = String::new();
    let mut i: usize = 0;
    while i < chars.len()
        invariant
            i <= chars.len(),
            s@ == chars@.take(i as int),
        decreases chars.len() - i,
    {
        s.push(chars[i]);
        i += 1;
        assert(s@ =~= chars@.take(i as int));
    }
    assert(chars@.take(chars.len() as int) =~= chars@);
    s
}

/// The characters `s[from..to]`.
pub fn copy_range(s: &Vec<char>, from: usize, to: usize) -> (r: Vec<char>)
    requires
        from <= to <= s.len(),
    ensures
        r@ == s@.subrange(from as int, to as int),
{
    let mut r: Vec<char> = Vec::new();
    let mut i = from;
    while i < to
        invariant
            from <= i <= to <= s.len(),
            r@ == s@.subrange(from as int, i as int),
        decreases to - i,
    {
        r.push(s[i]);
        i += 1;
        assert(r@ =~= s@.subrange(from as int, i as int));
    }
    r
}

/// Appends the characters `more` to `chars`.
pub fn extend_chars(chars: &mut Vec<char>, more: &Vec<char>)
    ensures
        final(chars)@ == old(chars)@ + more@,
{
    let ghost start = chars@;
    let mut i: usize = 0;
    while i < more.len()
        invariant
            i <= more.len(),
            chars@ == start + more@.take(i as int),
        decreases more.len() - i,
    {
        chars.push(more[i]);
        i += 1;
        assert(chars@ =~= start + more@.take(i as int));
    }
    assert(more@.take(more.len() as int) =~= more@);
}

/// Appends the characters of `more` to `s`.
pub fn push_str(s: &mut String, more: &str)
    ensures
        final(s)@ == old(s)@ + more@,
{
    let chars = chars_of(more);
    let ghost start = s@;
    let mut i: usize = 0;
    while i < chars.len()
        invariant
            i <= chars.len(),
            chars@ == more@,
            s@ == start + chars@.take(i as int),
        decreases chars.len() - i,
    {
        s.push(chars[i]);
        i += 1;
        assert(s@ =~= start + chars@.take(i as int));
    }
    assert(chars@.take(chars.len() as int) =~= chars@);
}

/// A string of `n` copies of `c`.
pub fn repeat_char(c: char, n: usize) -> (s: String)
    ensures
        s@ == Seq::new(n as nat, |i: int| c),
{
    let mut s = String::new();
    let mut i: usize = 0;
    while i < n
        invariant
            i <= n,
            s@ == Seq::new(i as nat, |j: int| c),
        decreases n - i,
    {
        s.push(c);
        i += 1;
        assert(s@ =~= Seq::new(i as nat, |j: int| c));
    }
    s
}

// ---------------------------------------------------------------------------
// Splitting on a separator
// ---------------------------------------------------------------------------
/// The first place at or after `from` where `pat` occurs in `s`, or -1.
pub open spec fn find_from(s: Seq<char>, pat: Seq<char>, from: int) -> int
    decreases s.len() - from,
{
    if from < 0 || from >= s.len() || from + pat.len() > s.len() {
        -1
    } else if s.subrange(from, from + pat.len()) == pat {
        from
    } else {
        find_from(s, pat, from + 1)
    }
}

/// A place found by `find_from` lies in `s`, at or after `from`.
pub proof fn lemma_find_from_bounds(s: Seq<char>, pat: Seq<char>, from: int)
    ensures
        find_from(s, pat, from) == -1 || (from <= find_from(s, pat, from) && find_from(s, pat, from)
            + pat.len() <= s.len()),
    decreases s.len() - from,
{
    if from < 0 || from >= s.len() || from + pat.len() > s.len() {
    } else if s.subrange(from, from + pat.len()) == pat {
    } else {
        lemma_find_from_bounds(s, pat, from + 1);
    }
}

/// The pieces of `s[start..]` between occurrences of `sep`, left to right.
pub open spec fn split_from(s: Seq<char>, sep: Seq<char>, start: int) -> Seq<Seq<char>>
    decreases s.len() - start,
{
    if sep.len() == 0 || start < 0 || start > s.len() {
        seq![]
    } else {
        let i = find_from(s, sep, start);
        proof {
            lemma_find_from_bounds(s, sep, start);
        }
        if i < 0 {
            seq![s.subrange(start, s.len() as int)]
        } else {
            seq![s.subrange(start, i)] + split_from(s, sep, i + sep.len())
        }
    }
}

/// The pieces of `s` between the occurrences of `sep` (as `str::split` gives them).
pub open spec fn spec_split(s: Seq<char>, sep: Seq<char>) -> Seq<Seq<char>> {
    split_from(s, sep, 0)
}

/// Whether `pat` occurs in `s` at `at`.
fn matches_at(s: &Vec<char>, pat: &Vec<char>, at: usize) -> (r: bool)
    requires
        at <= s.len(),
    ensures
        r == (at + pat.len() <= s.len() && s@.subrange(at as int, at + pat.len()) == pat@),
{
    if pat.len() > s.len() - at {
        return false;
    }
    let mut k: usize = 0;
    while k < pat.len()
        invariant
            at + pat.len() <= s.len(),
            k <= pat.len(),
            forall|j: int| 0 <= j < k ==> s@[at + j] == pat@[j],
        decreases pat.len() - k,
    {
        if s[at + k] != pat[k] {
            assert(s@.subrange(at as int, at + pat.len())[k as int] != pat@[k as int]);
            return false;
        }
        k += 1;
    }
    assert(s@.subrange(at as int, at + pat.len()) =~= pat@);
    true
}

/// The pieces of `s` between the occurrences of `sep`, left to right.
pub fn split_on(s: &Vec<char>, sep: &Vec<char>) -> (pieces: Vec<Vec<char>>)
    requires
        sep.len() > 0,
    ensures
        views(pieces@) == spec_split(s@, sep@),
{
    let mut pieces: Vec<Vec<char>> = Vec::new();
    let mut start: usize = 0;
    let mut i: usize = 0;
    while i < s.len()
        invariant
            start <= i <= s.len(),
            sep@.len() > 0,
            find_from(s@, sep@, start as int) == find_from(s@, sep@, i as int),
            views(pieces@) + split_from(s@, sep@, start as int) == spec_split(s@, sep@),
        decreases s.len() - i,
    {
        if matches_at(s, sep, i) {
            let piece = copy_range(s, start, i);
            proof {
                lemma_find_from_bounds(s@, sep@, start as int);
                assert(split_from(s@, sep@, start as int) == seq![piece@] + split_from(
                    s@,
                    sep@,
                    i + sep@.len(),
                ));
                assert(views(pieces@.push(piece)) =~= views(pieces@).push(piece@));
                assert(views(pieces@).push(piece@) + split_from(s@, sep@, i + sep@.len()) =~= views(
                    pieces@,
                ) + (seq![piece@] + split_from(s@, sep@, i + sep@.len())));
            }
            pieces.push(piece);
            i = i + sep.len();
            start = i;
        } else {
            i += 1;
        }
    }
    let piece = copy_range(s, start, s.len());
    proof {
        assert(find_from(s@, sep@, i as int) == -1);
        assert(split_from(s@, sep@, start as int) == seq![piece@]);
        assert(views(pieces@.push(piece)) =~= views(pieces@).push(piece@));
        assert(views(pieces@).push(piece@) =~= views(pieces@) + seq![piece@]);
    }
    pieces.push(piece);
    pieces
}

// ---------------------------------------------------------------------------
// Replacing a character
// ---------------------------------------------------------------------------
/// `s` with every `c` replaced by `with`.
pub open spec fn spec_replace_char(s: Seq<char>, c: char, with: Seq<char>) -> Seq<char>
    decreases s.len(),
{
    if s.len() == 0 {
        seq![]
    } else {
        spec_replace_char(s.drop_last(), c, with) + (if s.last() == c {
            with
        } else {
            seq![s.last()]
        })
    }
}

/// Replacing every `c` by a text that holds no `c` leaves no `c`; each `c` becomes that text,
/// every other character stays, so the length grows by the text's length less one for each
/// `c`.
pub proof fn replacing_leaves_no_char(s: Seq<char>, c: char, with: Seq<char>)
    requires
        !with.contains(c),
    ensures
        !spec_replace_char(s, c, with).contains(c),
        spec_replace_char(s, c, with).len() == s.len() + (with.len() - 1) * s.filter(|x: char| x == c).len(),
    decreases s.len(),
{
    let f = |x: char| x == c;
    if s.len() == 0 {
        reveal_with_fuel(Seq::<_>::filter, 1);
        assert(s.filter(f) =~= Seq::<char>::empty());
    } else {
        let t = s.drop_last();
        let e = s.last();
        replacing_leaves_no_char(t, c, with);
        assert(s =~= t.push(e));
        t.lemma_filter_push(e, f);
        let prev = spec_replace_char(t, c, with);
        let piece = if e == c {
            with
        } else {
            seq![e]
        };
        let r = spec_replace_char(s, c, with);
        assert(r == prev + piece);
        assert forall|i: int| 0 <= i < r.len() implies r[i] != c by {
            if i < prev.len() {
                assert(r[i] == prev[i]);
                assert(!prev.contains(c));
            } else {
                assert(r[i] == piece[i - prev.len()]);
                if e == c {
                    assert(!with.contains(c));
                }
            }
        }
        let k = t.filter(f).len();
        let w = with.len() as int;
        if e == c {
            assert(s.filter(f).len() == k + 1);
            assert(t.len() + (w - 1) * k + w == s.len() + (w - 1) * (k + 1)) by (nonlinear_arith)
                requires
                    s.len() == t.len() + 1,
            ;
        } else {
            assert(s.filter(f).len() == k);
        }
    }
}

/// `s` with every `c` replaced by `with`.
pub fn replace_char(s: &Vec<char>, c: char, with: &Vec<char>) -> (r: Vec<char>)
    ensures
        r@ == spec_replace_char(s@, c, with@),
{
    let mut r: Vec<char> = Vec::new();
    let mut i: usize = 0;
    while i < s.len()
        invariant
            i <= s.len(),
            r@ == spec_replace_char(s@.take(i as int), c, with@),
        decreases s.len() - i,
    {
        assert(s@.take(i + 1).drop_last() =~= s@.take(i as int));
        if s[i] == c {
            extend_chars(&mut r, with);
        } else {
            r.push(s[i]);
            assert(r@ =~= spec_replace_char(s@.take(i as int), c, with@) + seq![s@[i as int]]);
        }
        i += 1;
    }
    assert(s@.take(s.len() as int) =~= s@);
    r
}

// ---------------------------------------------------------------------------
// Lines
// ---------------------------------------------------------------------------
/// The first place at or after `from` where `c` occurs in `s`, or -1.
pub open spec fn find_char(s: Seq<char>, c: char, from: int) -> int
    decreases s.len() - from,
{
    if from < 0 || from >= s.len() {
        -1
    } else if s[from] == c {
        from
    } else {
        find_char(s, c, from + 1)
    }
}

/// A place found by `find_char` holds `c` and lies at or after `from`.
pub proof fn lemma_find_char(s: Seq<char>, c: char, from: int)
    requires
        0 <= from,
    ensures
        find_char(s, c, from) == -1 || (from <= find_char(s, c, from) < s.len() && s[find_char(
            s,
            c,
            from,
        )] == c),
        find_char(s, c, from) == -1 ==> forall|j: int| from <= j < s.len() ==> s[j] != c,
        find_char(s, c, from) != -1 ==> forall|j: int|
            from <= j < find_char(s, c, from) ==> s[j] != c,
    decreases s.len() - from,
{
    if from < 0 || from >= s.len() {
    } else if s[from] == c {
    } else {
        lemma_find_char(s, c, from + 1);
    }
}

/// A line without its carriage return, if it ends in one.
pub open spec fn strip_cr(line: Seq<char>) -> Seq<char> {
    if line.len() > 0 && line.last() == '\r' {
        line.drop_last()
    } else {
        line
    }
}

/// The lines of `s[start..]`, as `str::lines` gives them.
pub open spec fn lines_from(s: Seq<char>, start: int) -> Seq<Seq<char>>
    decreases s.len() - start,
{
    if start < 0 || start >= s.len() {
        seq![]
    } else {
        let i = find_char(s, '\n', start);
        proof {
            lemma_find_char(s, '\n', start);
        }
        if i < 0 {
            seq![s.subrange(start, s.len() as int)]
        } else {
            seq![strip_cr(s.subrange(start, i))] + lines_from(s, i + 1)
        }
    }
}

/// The lines of `s`: split at `\n`, each without its line ending (`\n` or `\r\n`); the last
/// line ending is optional.
pub open spec fn spec_lines(s: Seq<char>) -> Seq<Seq<char>> {
    lines_from(s, 0)
}

/// The lines of `s`.
pub fn lines(s: &Vec<char>) -> (ls: Vec<Vec<char>>)
    ensures
        views(ls@) == spec_lines(s@),
{
    let mut ls: Vec<Vec<char>> = Vec::new();
    let mut start: usize = 0;
    let mut i: usize = 0;
    while i < s.len()
        invariant
            start <= i <= s.len(),
            forall|j: int| start <= j < i ==> s@[j] != '\n',
            views(ls@) + lines_from(s@, start as int) == spec_lines(s@),
        decreases s.len() - i,
    {
        if s[i] == '\n' {
            let mut end = i;
            if end > start && s[end - 1] == '\r' {
                end = end - 1;
            }
            let line = copy_range(s, start, end);
            proof {
                lemma_find_char(s@, '\n', start as int);
                assert(find_char(s@, '\n', start as int) == i);
                assert(line@ == strip_cr(s@.subrange(start as int, i as int)));
                assert(lines_from(s@, start as int) == seq![line@] + lines_from(s@, i + 1));
                assert(views(ls@.push(line)) =~= views(ls@).push(line@));
                assert(views(ls@).push(line@) + lines_from(s@, i + 1) =~= views(ls@) + (seq![line@]
                    + lines_from(s@, i + 1)));
            }
            ls.push(line);
            i += 1;
            start = i;
        } else {
            i += 1;
        }
    }
    if start < s.len() {
        let line = copy_range(s, start, s.len());
        proof {
            lemma_find_char(s@, '\n', start as int);
            assert(lines_from(s@, start as int) == seq![line@]);
            assert(views(ls@.push(line)) =~= views(ls@) + seq![line@]);
        }
        ls.push(line);
    } else {
        assert(lines_from(s@, start as int) =~= Seq::<Seq<char>>::empty());
        assert(views(ls@) + Seq::<Seq<char>>::empty() =~= views(ls@));
    }
    ls
}

/// Returns the lines of `text` as a Vec of Strings.
pub fn lineify(text: &str) -> (ls: Vec<String>)
    ensures
        string_views(ls@) == spec_lines(text@),
{
    let chars = chars_of(text);
    let char_lines = lines(&chars);
    let mut ls: Vec<String> = Vec::new();
    let mut k: usize = 0;
    while k < char_lines.len()
        invariant
            k <= char_lines.len(),
            string_views(ls@) == views(char_lines@).take(k as int),
        decreases char_lines.len() - k,
    {
        let line = string_of(&char_lines[k]);
        assert(views(char_lines@)[k as int] == char_lines@[k as int]@);
        assert(views(char_lines@).take(k + 1) =~= views(char_lines@).take(k as int).push(line@));
        ls.push(line);
        assert(string_views(ls@) =~= string_views(ls@.drop_last()).push(line@));
        k += 1;
        assert(string_views(ls@) =~= views(char_lines@).take(k as int));
    }
    assert(views(char_lines@).take(char_lines.len() as int) =~= views(char_lines@));
    ls
}

// ---------------------------------------------------------------------------
// Columns
// ---------------------------------------------------------------------------
/// At most the first `k` elements of `l`.
pub open spec fn take_upto(l: Seq<char>, k: int) -> Seq<char> {
    if l.len() <= k {
        l
    } else {
        l.take(k)
    }
}

/// Each line cut to its first `n + 1` characters and ended by `\n`, all joined.
pub open spec fn keep_columns(ls: Seq<Seq<char>>, n: int) -> Seq<char>
    decreases ls.len(),
{
    if ls.len() == 0 {
        seq![]
    } else {
        keep_columns(ls.drop_last(), n) + take_upto(ls.last(), n + 1) + seq!['\n']
    }
}

/// `text` with only the first `n + 1` characters of each of its lines.
pub open spec fn spec_keep_n_columns(text: Seq<char>, n: int) -> Seq<char> {
    keep_columns(spec_lines(text), n)
}

/// Only keeps the first `n` + 1 characters of each line of `text`, each line ended by `\n`.
pub fn keep_n_columns(text: &str, n: usize) -> (kept: String)
    ensures
        kept@ == spec_keep_n_columns(text@, n as int),
{
    let chars = chars_of(text);
    let ls = lines(&chars);
    let mut kept: Vec<char> = Vec::new();
    let mut k: usize = 0;
    while k < ls.len()
        invariant
            k <= ls.len(),
            kept@ == keep_columns(views(ls@).take(k as int), n as int),
        decreases ls.len() - k,
    {
        let line = &ls[k];
        let mut j: usize = 0;
        let ghost before = kept@;
        while j < line.len() && j <= n
            invariant
                j <= line.len(),
                j <= n + 1,
                kept@ == before + line@.take(j as int),
            decreases line.len() - j,
        {
            kept.push(line[j]);
            j += 1;
            assert(kept@ =~= before + line@.take(j as int));
        }
        kept.push('\n');
        proof {
            assert(line@.take(j as int) =~= take_upto(line@, n + 1));
            assert(views(ls@).take(k + 1).drop_last() =~= views(ls@).take(k as int));
            assert(views(ls@).take(k + 1).last() == line@);
        }
        k += 1;
    }
    assert(views(ls@).take(ls.len() as int) =~= views(ls@));
    string_of(&kept)
}

// ---------------------------------------------------------------------------
// Side by side
// ---------------------------------------------------------------------------
/// The fewest lines any of `ls` has (0 for none).
pub open spec fn min_depth(ls: Seq<Seq<Seq<char>>>) -> int
    decreases ls.len(),
{
    if ls.len() == 0 {
        0
    } else if ls.len() == 1 {
        ls[0].len() as int
    } else {
        let m = min_depth(ls.drop_last());
        if ls.last().len() < m {
            ls.last().len() as int
        } else {
            m
        }
    }
}

/// Line `i` of the first `k` items of `ls`, with `sep` after each but the last item.
pub open spec fn row_part(ls: Seq<Seq<Seq<char>>>, sep: Seq<char>, i: int, k: int) -> Seq<char>
    decreases k,
{
    if k <= 0 {
        seq![]
    } else {
        row_part(ls, sep, i, k - 1) + ls[k - 1][i] + (if k - 1 != ls.len() - 1 {
            sep
        } else {
            seq![]
        })
    }
}

/// The first `d` rows of the items `ls` side by side, each row ended by `\n`.
pub open spec fn rows(ls: Seq<Seq<Seq<char>>>, sep: Seq<char>, d: int) -> Seq<char>
    decreases d,
{
    if d <= 0 {
        seq![]
    } else {
        rows(ls, sep, d - 1) + row_part(ls, sep, d - 1, ls.len() as int) + seq!['\n']
    }
}

/// Whether a text is non-empty.
pub open spec fn is_nonempty(s: Seq<char>) -> bool {
    s.len() > 0
}

/// The items (each a text of lines) next to each other, separated by `sep`: the empty items
/// are left out, and only as many lines are shown as the item with fewest lines has.
pub open spec fn spec_side_by_side(items: Seq<Seq<char>>, sep: Seq<char>) -> Seq<char> {
    let shown = items.filter(|s: Seq<char>| is_nonempty(s));
    let ls = shown.map_values(|s: Seq<char>| spec_lines(s));
    if shown.len() == 0 {
        seq![]
    } else {
        rows(ls, sep, min_depth(ls))
    }
}

/// Returns a String with each item in `items` being next to each other separated by `separator`.
/// If an item has more lines than another, the extra lines will not be in the result.
/// If an item is a zero-length-string (""), then it will not be printed and will not truncate the
/// amount of lines printed.
pub fn string_side_by_side(items: &[String], separator: &str) -> (s: String)
    ensures
        s@ == spec_side_by_side(string_views(items@), separator@),
{
    let ghost all = string_views(items@);
    let ghost pred = |s: Seq<char>| is_nonempty(s);
    // the lines of each non-empty item
    let mut item_lines: Vec<Vec<Vec<char>>> = Vec::new();
    let ghost mut shown: Seq<Seq<char>> = Seq::empty();
    let mut k: usize = 0;
    while k < items.len()
        invariant
            k <= items.len(),
            all == string_views(items@),
            pred == (|s: Seq<char>| is_nonempty(s)),
            shown == all.take(k as int).filter(pred),
            item_lines@.len() == shown.len(),
            forall|j: int|
                0 <= j < shown.len() ==> views(#[trigger] item_lines@[j]@) == spec_lines(shown[j]),
        decreases items.len() - k,
    {
        let chars = chars_of(items[k].as_str());
        proof {
            assert(all.take(k + 1) =~= all.take(k as int).push(all[k as int]));
            all.take(k as int).lemma_filter_push(all[k as int], pred);
        }
        if chars.len() > 0 {
            let ls = lines(&chars);
            item_lines.push(ls);
            proof {
                shown = shown.push(chars@);
            }
        }
        k += 1;
    }
    assert(all.take(items.len() as int) =~= all);
    let ghost ls = shown.map_values(|s: Seq<char>| spec_lines(s));
    assert forall|j: int| 0 <= j < ls.len() implies #[trigger] ls[j] == views(item_lines@[j]@) by {}
    let n = item_lines.len();
    if n == 0 {
        return String::new();
    }
    let sep = chars_of(separator);
    // the fewest lines of any item
    let mut depth = item_lines[0].len();
    let mut k: usize = 1;
    while k < n
        invariant
            1 <= k <= n,
            n == item_lines.len(),
            ls.len() == n,
            forall|j: int| 0 <= j < n ==> #[trigger] ls[j] == views(item_lines@[j]@),
            depth == min_depth(ls.take(k as int)),
        decreases n - k,
    {
        proof {
            assert(ls.take(k + 1).drop_last() =~= ls.take(k as int));
            assert(ls.take(k + 1).last() == ls[k as int]);
        }
        if item_lines[k].len() < depth {
            depth = item_lines[k].len();
        }
        k += 1;
    }
    assert(ls.take(n as int) =~= ls);
    proof {
        lemma_min_depth_le(ls);
    }
    let mut out: Vec<char> = Vec::new();
    let mut line_index: usize = 0;
    while line_index < depth
        invariant
            line_index <= depth,
            depth == min_depth(ls),
            n == item_lines.len(),
            ls.len() == n,
            n > 0,
            sep@ == separator@,
            forall|j: int| 0 <= j < n ==> #[trigger] ls[j] == views(item_lines@[j]@),
            forall|j: int| 0 <= j < n ==> depth <= #[trigger] ls[j].len(),
            out@ == rows(ls, sep@, line_index as int),
        decreases depth - line_index,
    {
        let ghost before = out@;
        let mut index: usize = 0;
        while index < n
            invariant
                index <= n,
                line_index < depth,
                n == item_lines.len(),
                ls.len() == n,
                sep@ == separator@,
                forall|j: int| 0 <= j < n ==> #[trigger] ls[j] == views(item_lines@[j]@),
                forall|j: int| 0 <= j < n ==> depth <= #[trigger] ls[j].len(),
                out@ == before + row_part(ls, sep@, line_index as int, index as int),
            decreases n - index,
        {
            let item = &item_lines[index];
            assert(ls[index as int][line_index as int] == item@[line_index as int]@);
            extend_chars(&mut out, &item[line_index]);
            if index != n - 1 {
                extend_chars(&mut out, &sep);
            }
            index += 1;
        }
        out.push('\n');
        line_index += 1;
    }
    string_of(&out)
}

/// An empty item is not printed and cuts no line: laying the items side by side with an empty
/// item added anywhere gives the same text as without it.
pub proof fn empty_items_change_nothing(items: Seq<Seq<char>>, k: int, sep: Seq<char>)
    requires
        0 <= k <= items.len(),
    ensures
        spec_side_by_side(items.insert(k, seq![]), sep) == spec_side_by_side(items, sep),
{
    broadcast use vstd::seq_lib::group_seq_lib_default;

    let p = |s: Seq<char>| is_nonempty(s);
    let e: Seq<char> = seq![];
    assert(items.insert(k, e) =~= items.take(k) + seq![e] + items.skip(k));
    assert(items =~= items.take(k) + items.skip(k));
    reveal_with_fuel(Seq::<_>::filter, 2);
    assert(seq![e].filter(p) =~= Seq::<Seq<char>>::empty());
    assert(items.insert(k, e).filter(p) =~= items.filter(p));
}

/// Cutting the lines of a text to more columns than its longest line has keeps them whole:
/// any two such widths give the same text.
pub proof fn keeping_columns_saturates(text: Seq<char>, n: int, m: int)
    requires
        0 <= n <= m,
        forall|i: int| 0 <= i < spec_lines(text).len() ==> #[trigger] spec_lines(text)[i].len() <= n + 1,
    ensures
        spec_keep_n_columns(text, n) == spec_keep_n_columns(text, m),
{
    lemma_keep_columns_saturates(spec_lines(text), n, m);
}

/// `keep_columns` of lines no longer than `n + 1` is the same for any width from `n` on.
proof fn lemma_keep_columns_saturates(ls: Seq<Seq<char>>, n: int, m: int)
    requires
        0 <= n <= m,
        forall|i: int| 0 <= i < ls.len() ==> #[trigger] ls[i].len() <= n + 1,
    ensures
        keep_columns(ls, n) == keep_columns(ls, m),
    decreases ls.len(),
{
    if ls.len() > 0 {
        assert forall|i: int| 0 <= i < ls.drop_last().len() implies #[trigger] ls.drop_last()[i].len()
            <= n + 1 by {
            assert(ls.drop_last()[i] == ls[i]);
        }
        lemma_keep_columns_saturates(ls.drop_last(), n, m);
        assert(ls.last().len() <= n + 1);
    }
}

/// Every item has at least `min_depth` lines.
pub proof fn lemma_min_depth_le(ls: Seq<Seq<Seq<char>>>)
    ensures
        forall|j: int| 0 <= j < ls.len() ==> min_depth(ls) <= #[trigger] ls[j].len(),
        min_depth(ls) >= 0,
    decreases ls.len(),
{
    if ls.len() > 1 {
        lemma_min_depth_le(ls.drop_last());
        assert forall|j: int| 0 <= j < ls.len() implies min_depth(ls) <= #[trigger] ls[j].len() by {
            if j < ls.len() - 1 {
                assert(ls.drop_last()[j] == ls[j]);
            }
        }
    }
}

// ---------------------------------------------------------------------------
// Numbers
// ---------------------------------------------------------------------------
/// The decimal digit `d`.
pub open spec fn digit_char(d: int) -> char {
    if d == 0 {
        '0'
    } else if d == 1 {
        '1'
    } else if d == 2 {
        '2'
    } else if d == 3 {
        '3'
    } else if d == 4 {
        '4'
    } else if d == 5 {
        '5'
    } else if d == 6 {
        '6'
    } else if d == 7 {
        '7'
    } else if d == 8 {
        '8'
    } else {
        '9'
    }
}

/// `n` in decimal, as `Display` prints it.
pub open spec fn decimal(n: nat) -> Seq<char>
    decreases n,
{
    if n < 10 {
        seq![digit_char(n as int)]
    } else {
        decimal(n / 10).push(digit_char((n % 10) as int))
    }
}

/// The English ordinal suffix of `n`: "th" for 11 to 13 (modulo 100), else "st", "nd", "rd"
/// for 1, 2, 3 (modulo 10), else "th".
pub open spec fn ordinal_suffix(n: nat) -> Seq<char> {
    let m = n % 100;
    if 11 <= m <= 13 {
        seq!['t', 'h']
    } else if n % 10 == 1 {
        seq!['s', 't']
    } else if n % 10 == 2 {
        seq!['n', 'd']
    } else if n % 10 == 3 {
        seq!['r', 'd']
    } else {
        seq!['t', 'h']
    }
}

/// The decimal text of a number is made of decimal digits and reads back as that number: read
/// most significant digit first, each digit worth its character's code minus that of `0`.
pub proof fn decimal_reads_back(n: nat)
    ensures
        crate::input::all_digits(decimal(n)),
        crate::input::digits_value(decimal(n)) == n,
        decimal(n).len() >= 1,
    decreases n,
{
    let d = decimal(n);
    if n < 10 {
        lemma_digit_char_code(n as int);
        assert(d.drop_last() =~= Seq::<char>::empty());
        assert(d.last() == digit_char(n as int));
        assert(crate::input::digits_value(d.drop_last()) == 0);
        assert(crate::input::digits_value(d) == ((d.last() as int) - ('0' as int)) as nat);
    } else {
        decimal_reads_back(n / 10);
        lemma_digit_char_code((n % 10) as int);
        assert(d.drop_last() =~= decimal(n / 10));
        assert(d.last() == digit_char((n % 10) as int));
        assert(crate::input::digits_value(d) == (n / 10) * 10 + ((d.last() as int) - ('0' as int)) as nat);
        assert forall|i: int| 0 <= i < d.len() implies #[trigger] crate::input::is_digit(d[i]) by {
            if i < d.len() - 1 {
                assert(d[i] == decimal(n / 10)[i]);
            }
        }
    }
}

/// The character of the digit `d` has the code of `0` plus `d`.
proof fn lemma_digit_char_code(d: int)
    requires
        0 <= d < 10,
    ensures
        (digit_char(d) as int) - ('0' as int) == d,
        crate::input::is_digit(digit_char(d)),
{
}

/// `ordinal::Ordinal(n).to_string()`: `n` in decimal followed by its English ordinal suffix
/// (the crate's `Display` writes the number, then `ToOrdinal::suffix`, which is "th" where
/// `n % 100` is 11 to 13 and else "st", "nd", "rd" or "th" by `n % 10`).
#[verifier::external_body]
pub(crate) fn ordinal_string(n: usize) -> (s: String)
    ensures
        s@ == decimal(n as nat) + ordinal_suffix(n as nat),
{
    ordinal::Ordinal(n).to_string()
}

/// The character of the decimal digit `d`.
fn digit(d: usize) -> (c: char)
    requires
        d < 10,
    ensures
        c == digit_char(d as int),
{
    if d == 0 {
        '0'
    } else if d == 1 {
        '1'
    } else if d == 2 {
        '2'
    } else if d == 3 {
        '3'
    } else if d == 4 {
        '4'
    } else if d == 5 {
        '5'
    } else if d == 6 {
        '6'
    } else if d == 7 {
        '7'
    } else if d == 8 {
        '8'
    } else {
        '9'
    }
}

/// Appends `n` in decimal to `s`.
pub fn push_decimal(s: &mut String, n: usize)
    ensures
        final(s)@ == old(s)@ + decimal(n as nat),
    decreases n,
{
    if n >= 10 {
        push_decimal(s, n / 10);
    }
    s.push(digit(n % 10));
    assert(s@ =~= old(s)@ + decimal(n as nat));
}

/// `n` in decimal, as `Display` prints it.
pub fn decimal_string(n: usize) -> (s: String)
    ensures
        s@ == decimal(n as nat),
{
    let mut s = String::new();
    push_decimal(&mut s, n);
    assert(s@ =~= decimal(n as nat));
    s
}

/// The upper case of an ASCII letter; other characters as they are.
pub open spec fn upper_char(c: char) -> char {
    if 'a' <= c <= 'z' {
        ((c as u32) - 32) as char
    } else {
        c
    }
}

/// `s` with its ASCII lower case letters in upper case (what `to_uppercase` gives for ASCII
/// text).
pub open spec fn spec_uppercase_ascii(s: Seq<char>) -> Seq<char> {
    s.map_values(|c: char| upper_char(c))
}

/// `text` with its ASCII lower case letters in upper case.
pub fn uppercase_ascii(text: &str) -> (upper: String)
    ensures
        upper@ == spec_uppercase_ascii(text@),
{
    let chars = chars_of(text);
    let mut upper = String::new();
    let mut i: usize = 0;
    while i < chars.len()
        invariant
            i <= chars.len(),
            chars@ == text@,
            upper@ == spec_uppercase_ascii(chars@.take(i as int)),
        decreases chars.len() - i,
    {
        let c = chars[i];
        let u = if 'a' <= c && c <= 'z' {
            ((c as u8) - 32) as char
        } else {
            c
        };
        assert(u == upper_char(c));
        upper.push(u);
        i += 1;
        assert(upper@ =~= spec_uppercase_ascii(chars@.take(i as int)));
    }
    assert(chars@.take(chars.len() as int) =~= chars@);
    upper
}

} // verus!
