//! The leading comment block of a YAML text: the run of blank and comment
//! lines before the first line of content. The edit tree drops it when it
//! parses a text, so a document keeps it apart and puts it back in front.
use vstd::prelude::*;
use crate::outside::push_char;
use vstd::std_specs::iter::IteratorSpec;

verus! {

/// The characters that carry the Unicode `White_Space` property.
pub open spec fn is_white_space(c: char) -> bool {
    let u = c as u32;
    (0x09 <= u <= 0x0D) || u == 0x20 || u == 0x85 || u == 0xA0 || u == 0x1680 || (0x2000 <= u
        <= 0x200A) || u == 0x2028 || u == 0x2029 || u == 0x202F || u == 0x205F || u == 0x3000
}

/// A line without its leading white space.
pub open spec fn trim_start(l: Seq<char>) -> Seq<char>
    decreases l.len(),
{
    if l.len() > 0 && is_white_space(l[0]) {
        trim_start(l.drop_first())
    } else {
        l
    }
}

/// A line that is empty once its leading white space is gone, or that starts with `#`.
pub open spec fn is_blank_or_comment(l: Seq<char>) -> bool {
    let t = trim_start(l);
    t.len() == 0 || t[0] == '#'
}

/// The position of the first line feed of `s` (its length when there is none).
pub open spec fn first_newline(s: Seq<char>) -> int
    decreases s.len(),
{
    if s.len() == 0 || s[0] == '\n' {
        0
    } else {
        1 + first_newline(s.drop_first())
    }
}

/// A line without the carriage return of a `\r\n` ending.
pub open spec fn strip_cr(l: Seq<char>) -> Seq<char> {
    if l.len() > 0 && l.last() == '\r' {
        l.drop_last()
    } else {
        l
    }
}

/// The lines of a text: split at `\n` or `\r\n`, the terminators left out, the
/// final line ending optional.
pub open spec fn text_lines(s: Seq<char>) -> Seq<Seq<char>>
    decreases s.len(),
{
    if s.len() == 0 {
        seq![]
    } else {
        let i = first_newline(s);
        proof {
            lemma_first_newline_bound(s);
        }
        if i < s.len() {
            seq![strip_cr(s.take(i as int))] + text_lines(s.skip(i + 1))
        } else {
            seq![s]
        }
    }
}

/// The blank and comment lines at the front of `ls`, each followed by a line feed.
pub open spec fn leading_lines(ls: Seq<Seq<char>>) -> Seq<char>
    decreases ls.len(),
{
    if ls.len() > 0 && is_blank_or_comment(ls[0]) {
        ls[0].push('\n') + leading_lines(ls.drop_first())
    } else {
        seq![]
    }
}

/// The leading comment block of a text.
pub open spec fn spec_leading_block(s: Seq<char>) -> Seq<char> {
    leading_lines(text_lines(s))
}

/// A text made only of blank and comment lines, each ended by a bare `\n`.
pub open spec fn is_comment_block(s: Seq<char>) -> bool
    decreases s.len(),
{
    s.len() == 0 || {
        let i = first_newline(s);
        proof {
            lemma_first_newline_bound(s);
        }
        &&& i < s.len()
        &&& !(i > 0 && s[i - 1] == '\r')
        &&& is_blank_or_comment(s.take(i as int))
        &&& is_comment_block(s.skip(i + 1))
    }
}

proof fn lemma_first_newline(s: Seq<char>, k: int)
    requires
        0 <= k <= s.len(),
        forall|m: int| 0 <= m < k ==> s[m] != '\n',
        k == s.len() || s[k] == '\n',
    ensures
        first_newline(s) == k,
    decreases k,
{
    if k > 0 {
        lemma_first_newline(s.drop_first(), k - 1);
    }
}

/// Where the first line feed stands.
pub proof fn lemma_first_newline_bound(s: Seq<char>)
    ensures
        0 <= first_newline(s) <= s.len(),
        first_newline(s) < s.len() ==> s[first_newline(s) as int] == '\n',
        forall|m: int| 0 <= m < first_newline(s) ==> s[m] != '\n',
    decreases s.len(),
{
    if s.len() > 0 && s[0] != '\n' {
        lemma_first_newline_bound(s.drop_first());
        assert forall|m: int| 0 <= m < first_newline(s) implies s[m] != '\n' by {
            if m > 0 {
                assert(s[m] == s.drop_first()[m - 1]);
            }
        }
    }
}

proof fn lemma_trim_start(l: Seq<char>, k: int)
    requires
        0 <= k <= l.len(),
        forall|m: int| 0 <= m < k ==> is_white_space(#[trigger] l[m]),
        k == l.len() || !is_white_space(l[k]),
    ensures
        trim_start(l) == l.skip(k),
    decreases k,
{
    if k > 0 {
        assert forall|m: int| 0 <= m < k - 1 implies is_white_space(#[trigger] l.drop_first()[m]) by {
            assert(l.drop_first()[m] == l[m + 1]);
        }
        lemma_trim_start(l.drop_first(), k - 1);
        assert(l.drop_first().skip(k - 1) =~= l.skip(k));
    } else {
        assert(l.skip(0) =~= l);
    }
}

/// A comment block in front of any text is kept whole in front of that
/// text's own leading block.
pub proof fn lemma_comment_block_prefix(block: Seq<char>, rest: Seq<char>)
    requires
        is_comment_block(block),
    ensures
        spec_leading_block(block + rest) == block + spec_leading_block(rest),
    decreases block.len(),
{
    if block.len() == 0 {
        assert(block + rest =~= rest);
        assert(block + spec_leading_block(rest) =~= spec_leading_block(rest));
    } else {
        let s = block + rest;
        let i = first_newline(block);
        lemma_first_newline_bound(block);
        lemma_first_newline(s, i as int);
        let line = block.take(i as int);
        assert(s.take(i as int) =~= line);
        assert(strip_cr(line) == line);
        assert(s.skip(i + 1) =~= block.skip(i + 1) + rest);
        lemma_comment_block_prefix(block.skip(i + 1), rest);
        let ls = text_lines(s);
        assert(ls == seq![line] + text_lines(s.skip(i + 1)));
        assert(ls[0] == line);
        assert(ls.drop_first() =~= text_lines(s.skip(i + 1)));
        assert(block =~= line.push('\n') + block.skip(i + 1));
        assert(spec_leading_block(s) == line.push('\n') + spec_leading_block(block.skip(i + 1) + rest));
        assert(spec_leading_block(s) =~= block + spec_leading_block(rest));
    }
}

/// A line that is white space (no line break among it), then `#`, then any
/// text without a line break, ended by a bare `\n`, is a comment line: in
/// front of any text it is kept, whole, in front of that text's own leading
/// block.
pub proof fn lemma_comment_line_kept(pre: Seq<char>, body: Seq<char>, rest: Seq<char>)
    requires
        forall|i: int| 0 <= i < pre.len() ==> is_white_space(#[trigger] pre[i]) && pre[i] != '\n',
        forall|i: int| 0 <= i < body.len() ==> #[trigger] body[i] != '\n',
        body.len() > 0 ==> body.last() != '\r',
    ensures
        spec_leading_block(pre + seq!['#'] + body + seq!['\n'] + rest) == pre + seq!['#'] + body + seq!['\n']
            + spec_leading_block(rest),
{
    let line = pre + seq!['#'] + body;
    let block = line.push('\n');
    assert(pre + seq!['#'] + body + seq!['\n'] =~= block);
    assert forall|m: int| 0 <= m < line.len() implies block[m] != '\n' by {
        if m < pre.len() {
            assert(block[m] == pre[m]);
        } else if m > pre.len() {
            assert(block[m] == body[m - pre.len() - 1]);
        }
    }
    lemma_first_newline(block, line.len() as int);
    assert(block.take(line.len() as int) =~= line);
    assert forall|m: int| 0 <= m < pre.len() implies is_white_space(#[trigger] line[m]) by {
        assert(line[m] == pre[m]);
    }
    lemma_trim_start(line, pre.len() as int);
    assert(line.skip(pre.len() as int)[0] == '#');
    assert(is_blank_or_comment(line));
    if body.len() > 0 {
        assert(block[line.len() - 1] == body.last());
    } else {
        assert(block[line.len() - 1] == '#');
    }
    assert(first_newline(block) == line.len());
    assert(block.skip(line.len() as int + 1) =~= Seq::<char>::empty());
    assert(is_comment_block(Seq::<char>::empty()));
    assert(is_comment_block(block));
    lemma_comment_block_prefix(block, rest);
    assert(block + rest =~= pre + seq!['#'] + body + seq!['\n'] + rest);
}

/// A line of white space alone (no line break among it, no carriage return
/// at its end), ended by `\n`, is a blank line: in front of any text it is
/// kept, whole, in front of that text's own leading block.
pub proof fn lemma_blank_line_kept(pre: Seq<char>, rest: Seq<char>)
    requires
        forall|i: int| 0 <= i < pre.len() ==> is_white_space(#[trigger] pre[i]) && pre[i] != '\n',
        pre.len() > 0 ==> pre.last() != '\r',
    ensures
        spec_leading_block(pre + seq!['\n'] + rest) == pre + seq!['\n'] + spec_leading_block(rest),
{
    let block = pre.push('\n');
    assert(pre + seq!['\n'] =~= block);
    assert forall|m: int| 0 <= m < pre.len() implies block[m] != '\n' by {
        assert(block[m] == pre[m]);
    }
    lemma_first_newline(block, pre.len() as int);
    assert(block.take(pre.len() as int) =~= pre);
    lemma_trim_start(pre, pre.len() as int);
    assert(pre.skip(pre.len() as int) =~= Seq::<char>::empty());
    assert(is_blank_or_comment(pre));
    if pre.len() > 0 {
        assert(block[pre.len() - 1] == pre.last());
    }
    assert(first_newline(block) == pre.len());
    assert(block.skip(pre.len() as int + 1) =~= Seq::<char>::empty());
    assert(is_comment_block(Seq::<char>::empty()));
    assert(is_comment_block(block));
    lemma_comment_block_prefix(block, rest);
}

/// A text whose first line holds, after its leading white space, a character
/// other than `#` has no leading comment block.
pub proof fn lemma_content_line_ends_block(pre: Seq<char>, c: char, rest: Seq<char>)
    requires
        forall|i: int| 0 <= i < pre.len() ==> is_white_space(#[trigger] pre[i]) && pre[i] != '\n',
        !is_white_space(c),
        c != '#',
    ensures
        spec_leading_block(pre + seq![c] + rest) == Seq::<char>::empty(),
{
    let s = pre + seq![c] + rest;
    let k = pre.len() as int;
    assert(s[k] == c);
    assert forall|m: int| 0 <= m < k implies s[m] != '\n' && is_white_space(#[trigger] s[m]) by {
        assert(s[m] == pre[m]);
    }
    lemma_first_newline_bound(s);
    let i = first_newline(s);
    if i < k + 1 {
        assert(s[i] == '\n');
        assert(false);
    }
    let ls = text_lines(s);
    let line = if i < s.len() { strip_cr(s.take(i)) } else { s };
    assert(ls[0] == line);
    assert(line.len() > k);
    assert(line[k] == c);
    assert forall|m: int| 0 <= m < k implies is_white_space(#[trigger] line[m]) by {
        assert(line[m] == s[m]);
    }
    lemma_trim_start(line, k);
    assert(line.skip(k)[0] == c);
    assert(!is_blank_or_comment(line));
}

/// The characters of a text.
fn text_chars(text: &str) -> (v: Vec<char>)
    ensures
        v@ == text@,
{
    let n = text.unicode_len();
    let mut v: Vec<char> = Vec::new();
    let mut it = text.chars();
    let mut i: usize = 0;
    proof {
        broadcast use vstd::string::axiom_spec_iter;
    }
    while i < n
        invariant
            n == text@.len(),
            0 <= i <= n,
            v@ =~= text@.take(i as int),
            it.remaining() == text@.skip(i as int),
            it.obeys_prophetic_iter_laws(),
        decreases n - i,
    {
        let c = it.next();
        proof {
            broadcast use vstd::string::next_postcondition;
        }
        match c {
            Some(c) => {
                assert(c == text@[i as int]);
                v.push(c);
                assert(text@.skip(i as int).drop_first() =~= text@.skip(i + 1));
                assert(text@.take(i + 1) =~= text@.take(i as int).push(c));
            },
            None => {
                assert(false);
            },
        }
        i = i + 1;
    }
    assert(text@.take(n as int) =~= text@);
    v
}

fn is_white_space_char(c: char) -> (r: bool)
    ensures
        r == is_white_space(c),
{
    let u = c as u32;
    (0x09 <= u && u <= 0x0D) || u == 0x20 || u == 0x85 || u == 0xA0 || u == 0x1680 || (0x2000
        <= u && u <= 0x200A) || u == 0x2028 || u == 0x2029 || u == 0x202F || u == 0x205F || u
        == 0x3000
}

/// Whether `chars[start..end]` is a blank or comment line.
fn blank_or_comment(chars: &Vec<char>, start: usize, end: usize) -> (r: bool)
    requires
        start <= end <= chars@.len(),
    ensures
        r == is_blank_or_comment(chars@.subrange(start as int, end as int)),
{
    let ghost l = chars@.subrange(start as int, end as int);
    let mut k = start;
    while k < end && is_white_space_char(chars[k])
        invariant
            start <= k <= end <= chars@.len(),
            l == chars@.subrange(start as int, end as int),
            forall|m: int| 0 <= m < k - start ==> is_white_space(#[trigger] l[m]),
        decreases end - k,
    {
        k = k + 1;
    }
    proof {
        lemma_trim_start(l, k - start);
    }
    k == end || chars[k] == '#'
}

/// The leading comment block of `text`: its blank and comment lines up to the
/// first line of content, each ended by a line feed.
pub fn leading_block(text: &str) -> (out: String)
    ensures
        out@ == spec_leading_block(text@),
{
    let chars = text_chars(text);
    let n = chars.len();
    let ghost s = text@;
    let mut out = String::new();
    let mut pos: usize = 0;
    assert(s.skip(0) =~= s);
    loop
        invariant
            chars@ == s,
            s == text@,
            n == s.len(),
            0 <= pos <= n,
            spec_leading_block(s) == out@ + leading_lines(text_lines(s.skip(pos as int))),
        decreases n - pos,
    {
        let ghost r = s.skip(pos as int);
        if pos == n {
            assert(r.len() == 0);
            assert(out@ + leading_lines(text_lines(r)) =~= out@);
            return out;
        }
        let mut j = pos;
        while j < n && chars[j] != '\n'
            invariant
                chars@ == s,
                n == s.len(),
                pos <= j <= n,
                forall|m: int| pos <= m < j ==> s[m] != '\n',
            decreases n - j,
        {
            j = j + 1;
        }
        proof {
            assert forall|m: int| 0 <= m < j - pos implies r[m] != '\n' by {
                assert(r[m] == s[pos + m]);
            }
            lemma_first_newline(r, j - pos);
        }
        let end = if j < n && j > pos && chars[j - 1] == '\r' {
            j - 1
        } else {
            j
        };
        let ghost line = if j < n {
            strip_cr(r.take(j - pos))
        } else {
            r
        };
        assert(line =~= s.subrange(pos as int, end as int));
        let ghost ls = text_lines(r);
        assert(ls[0] == line);
        if !blank_or_comment(&chars, pos, end) {
            assert(leading_lines(ls) =~= seq![]);
            assert(out@ + leading_lines(ls) =~= out@);
            return out;
        }
        let ghost out0 = out@;
        let mut k = pos;
        while k < end
            invariant
                chars@ == s,
                n == s.len(),
                pos <= k <= end <= n,
                out@ =~= out0 + s.subrange(pos as int, k as int),
            decreases end - k,
        {
            push_char(&mut out, chars[k]);
            k = k + 1;
        }
        push_char(&mut out, '\n');
        assert(out@ =~= out0 + line.push('\n'));
        if j == n {
            assert(ls =~= seq![line]);
            assert(leading_lines(ls.drop_first()) =~= seq![]);
            assert(out@ + leading_lines(text_lines(s.skip(n as int))) =~= out@);
            assert(leading_lines(ls) =~= line.push('\n'));
            return out;
        }
        assert(r.skip(j - pos + 1) =~= s.skip(j + 1));
        assert(ls.drop_first() =~= text_lines(s.skip(j + 1)));
        pos = j + 1;
    }
}

} // verus!
