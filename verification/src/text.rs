//! The on-disk format of configured lists and chosen-history logs:
//! newline-delimited text, one item per line. Reading trims leading and
//! trailing whitespace from each line and discards blank lines; writing
//! terminates every item with a newline.

use vstd::prelude::*;

verus! {

/// A whitespace character for the purposes of trimming a line.
pub open spec fn is_space(c: char) -> bool {
    c == ' ' || c == '\t' || c == '\r' || c == '\n'
}

/// `s` without its leading whitespace.
pub open spec fn trim_front(s: Seq<char>) -> Seq<char>
    decreases s.len(),
{
    if s.len() > 0 && is_space(s[0]) {
        trim_front(s.drop_first())
    } else {
        s
    }
}

/// `s` without its trailing whitespace.
pub open spec fn trim_back(s: Seq<char>) -> Seq<char>
    decreases s.len(),
{
    if s.len() > 0 && is_space(s.last()) {
        trim_back(s.drop_last())
    } else {
        s
    }
}

/// `s` without leading and trailing whitespace.
pub open spec fn trim_spec(s: Seq<char>) -> Seq<char> {
    trim_back(trim_front(s))
}

/// The index of the first newline in `s`, or `s.len()` if there is none.
pub open spec fn line_break(s: Seq<char>) -> nat
    decreases s.len(),
{
    if s.len() == 0 {
        0
    } else if s[0] == '\n' {
        0
    } else {
        1 + line_break(s.drop_first())
    }
}

/// The sequence of items held in newline-delimited text: each line trimmed,
/// blank lines discarded.
pub open spec fn parse_lines(s: Seq<char>) -> Seq<Seq<char>>
    decreases s.len(),
{
    if s.len() == 0 {
        Seq::empty()
    } else {
        let i = line_break(s) as int;
        let line = trim_spec(s.subrange(0, i));
        let rest = if i < s.len() {
            parse_lines(s.subrange(i + 1, s.len() as int))
        } else {
            Seq::<Seq<char>>::empty()
        };
        if line.len() == 0 {
            rest
        } else {
            seq![line] + rest
        }
    }
}

/// The newline-delimited text that holds `items`: each item followed by one
/// newline.
pub open spec fn render_lines(items: Seq<Seq<char>>) -> Seq<char>
    decreases items.len(),
{
    if items.len() == 0 {
        Seq::empty()
    } else {
        items[0] + seq!['\n'] + render_lines(items.drop_first())
    }
}

/// The character sequences of a sequence of strings.
pub open spec fn views(v: Seq<String>) -> Seq<Seq<char>> {
    v.map_values(|s: String| s@)
}

/// An item as the store keeps it: non-empty, already trimmed, and free of
/// newlines, so that it occupies exactly one line on disk.
pub open spec fn clean_item(x: Seq<char>) -> bool {
    &&& x.len() > 0
    &&& !is_space(x[0])
    &&& !is_space(x.last())
    &&& forall|j: int| 0 <= j < x.len() ==> x[j] != '\n'
}

proof fn lemma_trim_front_at(s: Seq<char>, k: int)
    requires
        0 <= k <= s.len(),
        forall|j: int| 0 <= j < k ==> is_space(s[j]),
        k < s.len() ==> !is_space(s[k]),
    ensures
        trim_front(s) == s.subrange(k, s.len() as int),
    decreases k,
{
    if k == 0 {
        assert(s.subrange(0, s.len() as int) =~= s);
    } else {
        let t = s.drop_first();
        lemma_trim_front_at(t, k - 1);
        assert(t.subrange(k - 1, t.len() as int) =~= s.subrange(k, s.len() as int));
    }
}

proof fn lemma_trim_back_at(s: Seq<char>, k: int)
    requires
        0 <= k <= s.len(),
        forall|j: int| k <= j < s.len() ==> is_space(s[j]),
        k > 0 ==> !is_space(s[k - 1]),
    ensures
        trim_back(s) == s.subrange(0, k),
    decreases s.len(),
{
    if k == s.len() {
        assert(s.subrange(0, s.len() as int) =~= s);
    } else {
        let t = s.drop_last();
        lemma_trim_back_at(t, k);
        assert(t.subrange(0, k) =~= s.subrange(0, k));
    }
}

proof fn lemma_line_break_at(s: Seq<char>, k: int)
    requires
        0 <= k <= s.len(),
        forall|j: int| 0 <= j < k ==> s[j] != '\n',
        k < s.len() ==> s[k] == '\n',
    ensures
        line_break(s) == k,
    decreases k,
{
    if k > 0 {
        lemma_line_break_at(s.drop_first(), k - 1);
    }
}

proof fn lemma_line_break_props(s: Seq<char>)
    ensures
        line_break(s) <= s.len(),
        line_break(s) < s.len() ==> s[line_break(s) as int] == '\n',
        forall|j: int| 0 <= j < line_break(s) ==> s[j] != '\n',
    decreases s.len(),
{
    if s.len() > 0 && s[0] != '\n' {
        let t = s.drop_first();
        lemma_line_break_props(t);
        assert forall|j: int| 0 <= j < line_break(s) implies s[j] != '\n' by {
            if j > 0 {
                assert(t[j - 1] != '\n');
                assert(t[j - 1] == s[j]);
            }
        }
    }
}

proof fn lemma_trim_front_props(s: Seq<char>)
    ensures
        exists|k: int|
            0 <= k <= s.len() && trim_front(s) == #[trigger] s.subrange(k, s.len() as int),
        trim_front(s).len() > 0 ==> !is_space(trim_front(s)[0]),
    decreases s.len(),
{
    if s.len() > 0 && is_space(s[0]) {
        let t = s.drop_first();
        lemma_trim_front_props(t);
        let k = choose|k: int| 0 <= k <= t.len() && trim_front(t) == t.subrange(k, t.len() as int);
        assert(t.subrange(k, t.len() as int) =~= s.subrange(k + 1, s.len() as int));
    } else {
        assert(s.subrange(0, s.len() as int) =~= s);
    }
}

proof fn lemma_trim_back_props(s: Seq<char>)
    ensures
        exists|b: int| 0 <= b <= s.len() && trim_back(s) == #[trigger] s.subrange(0, b),
        trim_back(s).len() > 0 ==> !is_space(trim_back(s).last()),
    decreases s.len(),
{
    if s.len() > 0 && is_space(s.last()) {
        let t = s.drop_last();
        lemma_trim_back_props(t);
        let b = choose|b: int| 0 <= b <= t.len() && trim_back(t) == t.subrange(0, b);
        assert(t.subrange(0, b) =~= s.subrange(0, b));
    } else {
        assert(s.subrange(0, s.len() as int) =~= s);
    }
}

/// A non-empty trimmed line that held no newline is a clean item.
proof fn lemma_trim_spec_clean(s: Seq<char>)
    requires
        forall|j: int| 0 <= j < s.len() ==> s[j] != '\n',
        trim_spec(s).len() > 0,
    ensures
        clean_item(trim_spec(s)),
{
    lemma_trim_front_props(s);
    let y = trim_front(s);
    let k = choose|k: int| 0 <= k <= s.len() && y == s.subrange(k, s.len() as int);
    lemma_trim_back_props(y);
    let b = choose|b: int| 0 <= b <= y.len() && trim_back(y) == y.subrange(0, b);
    let r = trim_spec(s);
    assert forall|j: int| 0 <= j < r.len() implies r[j] != '\n' by {
        assert(r[j] == y[j]);
        assert(y[j] == s[k + j]);
    }
    assert(r[0] == y[0]);
    assert(y.len() > 0);
}

/// Everything the parser yields is a clean item: non-empty, trimmed, and
/// newline-free. Together with the round trip below, a history read from
/// disk is written back identically.
pub proof fn lemma_parse_lines_items_clean(s: Seq<char>)
    ensures
        forall|i: int| 0 <= i < parse_lines(s).len() ==> clean_item(#[trigger] parse_lines(s)[i]),
    decreases s.len(),
{
    if s.len() > 0 {
        lemma_line_break_props(s);
        let i = line_break(s) as int;
        let head = s.subrange(0, i);
        let line = trim_spec(head);
        if line.len() > 0 {
            assert forall|j: int| 0 <= j < head.len() implies head[j] != '\n' by {
                assert(head[j] == s[j]);
            }
            lemma_trim_spec_clean(head);
        }
        let rest = if i < s.len() {
            parse_lines(s.subrange(i + 1, s.len() as int))
        } else {
            Seq::<Seq<char>>::empty()
        };
        if i < s.len() {
            lemma_parse_lines_items_clean(s.subrange(i + 1, s.len() as int));
        }
        if line.len() > 0 {
            assert forall|m: int|
                0 <= m < parse_lines(s).len() implies clean_item(#[trigger] parse_lines(s)[m]) by {
                assert(parse_lines(s) == seq![line] + rest);
                if m == 0 {
                    assert(parse_lines(s)[0] == line);
                } else {
                    assert(parse_lines(s)[m] == rest[m - 1]);
                }
            }
        } else {
            assert(parse_lines(s) == rest);
        }
    }
}

/// Trimming an already clean item changes nothing.
proof fn lemma_trim_clean(x: Seq<char>)
    requires
        clean_item(x),
    ensures
        trim_spec(x) == x,
{
    lemma_trim_front_at(x, 0);
    assert(x.subrange(0, x.len() as int) =~= x);
    lemma_trim_back_at(x, x.len() as int);
}

/// Persistence round trip: rendering clean items to newline-delimited text
/// and parsing that text back yields the same items, so the history a store
/// writes is the history the next run reads.
pub proof fn lemma_render_parse_round_trip(items: Seq<Seq<char>>)
    requires
        forall|i: int| 0 <= i < items.len() ==> clean_item(#[trigger] items[i]),
    ensures
        parse_lines(render_lines(items)) == items,
    decreases items.len(),
{
    if items.len() > 0 {
        let first = items[0];
        let rest = items.drop_first();
        let s = render_lines(items);
        let tail = render_lines(rest);
        assert(s == first + seq!['\n'] + tail);
        assert(s.len() == first.len() + 1 + tail.len());
        assert forall|j: int| 0 <= j < first.len() implies s[j] != '\n' by {
            assert(s[j] == first[j]);
        }
        assert(s[first.len() as int] == '\n');
        lemma_line_break_at(s, first.len() as int);
        assert(s.subrange(0, first.len() as int) =~= first);
        lemma_trim_clean(first);
        assert(s.subrange(first.len() as int + 1, s.len() as int) =~= tail);
        assert forall|i: int| 0 <= i < rest.len() implies clean_item(#[trigger] rest[i]) by {
            assert(rest[i] == items[i + 1]);
        }
        lemma_render_parse_round_trip(rest);
        assert(parse_lines(s) == seq![first] + rest);
        assert(seq![first] + rest =~= items);
    }
}

/// Stability: rendering the items parsed out of any text and parsing that
/// rendering again yields the same items, so a history file survives being
/// read and rewritten unchanged.
pub proof fn lemma_history_stable(s: Seq<char>)
    ensures
        parse_lines(render_lines(parse_lines(s))) == parse_lines(s),
{
    lemma_parse_lines_items_clean(s);
    lemma_render_parse_round_trip(parse_lines(s));
}

/// Whether `c` counts as whitespace when a line is trimmed.
pub fn is_space_char(c: char) -> (r: bool)
    ensures
        r == is_space(c),
{
    c == ' ' || c == '\t' || c == '\r' || c == '\n'
}

/// One line of input with its leading and trailing whitespace removed.
pub fn trim(s: &str) -> (r: String)
    ensures
        r@ == trim_spec(s@),
{
    let n = s.unicode_len();
    let mut a: usize = 0;
    while a < n && is_space_char(s.get_char(a))
        invariant
            a <= n,
            n == s@.len(),
            forall|j: int| 0 <= j < a ==> is_space(s@[j]),
        decreases n - a,
    {
        a = a + 1;
    }
    let mut b: usize = n;
    while b > a && is_space_char(s.get_char(b - 1))
        invariant
            a <= b <= n,
            n == s@.len(),
            forall|j: int| b <= j < n ==> is_space(s@[j]),
        decreases b,
    {
        b = b - 1;
    }
    proof {
        lemma_trim_front_at(s@, a as int);
        let sub = s@.subrange(a as int, n as int);
        lemma_trim_back_at(sub, b - a);
        assert(sub.subrange(0, b - a) =~= s@.subrange(a as int, b as int));
    }
    let t = s.substring_char(a, b);
    String::from_str(t)
}

/// The items held in newline-delimited text: one candidate item per line,
/// trimmed, with blank lines discarded.
pub fn parse_items(content: &str) -> (r: Vec<String>)
    ensures
        views(r@) == parse_lines(content@),
{
    let n = content.unicode_len();
    let mut out: Vec<String> = Vec::new();
    let mut pos: usize = 0;
    proof {
        assert(content@.subrange(0, n as int) =~= content@);
        assert(views(out@) =~= Seq::<Seq<char>>::empty());
        assert(views(out@) + parse_lines(content@) =~= parse_lines(content@));
    }
    while pos < n
        invariant
            pos <= n,
            n == content@.len(),
            views(out@) + parse_lines(content@.subrange(pos as int, n as int)) == parse_lines(
                content@,
            ),
        decreases n - pos,
    {
        let mut i: usize = pos;
        while i < n && content.get_char(i) != '\n'
            invariant
                pos <= i <= n,
                n == content@.len(),
                forall|j: int| pos <= j < i ==> content@[j] != '\n',
            decreases n - i,
        {
            i = i + 1;
        }
        let line_str = content.substring_char(pos, i);
        let line = trim(line_str);
        let ghost lv = line@;
        let ghost prev = out@;
        if line.as_str().unicode_len() > 0 {
            out.push(line);
        }
        proof {
            let sub = content@.subrange(pos as int, n as int);
            lemma_line_break_at(sub, i - pos);
            assert(sub.subrange(0, i - pos) =~= content@.subrange(pos as int, i as int));
            assert(lv == trim_spec(sub.subrange(0, i - pos)));
            let rest = if i < n {
                parse_lines(content@.subrange(i + 1, n as int))
            } else {
                Seq::<Seq<char>>::empty()
            };
            if i < n {
                assert(sub.subrange(i - pos + 1, sub.len() as int) =~= content@.subrange(
                    i + 1,
                    n as int,
                ));
            }
            if lv.len() == 0 {
                assert(out@ == prev);
                assert(parse_lines(sub) == rest);
            } else {
                assert(out@.len() == prev.len() + 1);
                assert(out@.last()@ == lv);
                assert(views(out@) =~= views(prev) + seq![lv]);
                assert(parse_lines(sub) == seq![lv] + rest);
                assert(views(prev) + (seq![lv] + rest) =~= (views(prev) + seq![lv]) + rest);
            }
            assert(views(out@) + rest == views(prev) + parse_lines(sub));
            if i == n {
                assert(views(out@) + rest =~= views(out@));
                assert(parse_lines(content@.subrange(n as int, n as int)) == Seq::<Seq<
                    char,
                >>::empty());
                assert(views(out@) + parse_lines(content@.subrange(n as int, n as int)) =~= views(
                    out@,
                ));
            }
        }
        if i < n {
            pos = i + 1;
        } else {
            pos = n;
        }
    }
    proof {
        assert(parse_lines(content@.subrange(pos as int, n as int)) == Seq::<Seq<char>>::empty());
        assert(views(out@) + Seq::<Seq<char>>::empty() =~= views(out@));
    }
    out
}

/// The newline-delimited text that persists `items`: each item on its own
/// line, each line terminated by a newline.
pub fn render_items(items: &Vec<String>) -> (r: String)
    ensures
        r@ == render_lines(views(items@)),
{
    let n = items.len();
    let mut out = String::new();
    let mut k: usize = 0;
    proof {
        assert(views(items@).subrange(0, n as int) =~= views(items@));
        assert(out@ + render_lines(views(items@)) =~= render_lines(views(items@)));
    }
    while k < n
        invariant
            k <= n,
            n == items@.len(),
            out@ + render_lines(views(items@).subrange(k as int, n as int)) == render_lines(
                views(items@),
            ),
        decreases n - k,
    {
        let ghost before = out@;
        out.append(items[k].as_str());
        out.append("\n");
        proof {
            reveal_strlit("\n");
            assert("\n"@ =~= seq!['\n']);
            let all = views(items@);
            let tail = all.subrange(k as int, n as int);
            assert(tail[0] == all[k as int]);
            assert(tail.drop_first() =~= all.subrange(k + 1, n as int));
            assert(render_lines(tail) == tail[0] + seq!['\n'] + render_lines(tail.drop_first()));
            assert(out@ =~= before + (all[k as int] + seq!['\n']));
            assert(out@ + render_lines(all.subrange(k + 1, n as int)) =~= before + render_lines(
                tail,
            ));
        }
        k = k + 1;
    }
    proof {
        assert(render_lines(views(items@).subrange(n as int, n as int)) == Seq::<char>::empty());
        assert(out@ + Seq::<char>::empty() =~= out@);
    }
    out
}

} // verus!
