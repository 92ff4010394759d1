//! The block segmenter: turns one reply string into an ordered sequence of
//! typed, renderable blocks (plain text, fenced code, headings).
//!
//! The executable entry point is [`parse_markdown`]; its contract ties the
//! result to the mathematical model [`segment_spec`], a single forward pass
//! over the input's lines with a small accumulator state.

use vstd::prelude::*;
use vstd::string::StrSliceExecFns;
use vstd::string::StringExecFns;

verus! {

/// The rendering kind of one block.
#[derive(Debug, PartialEq)]
pub enum BlockType {
    Text,
    /// Language tag of a fenced code block; may be empty.
    Code(String),
    /// Heading level: the number of leading `#` characters of the line.
    Heading(i32),
}

/// One segment of parsed text, tagged with its rendering kind.
#[derive(Debug, PartialEq)]
pub struct Block {
    pub block_type: BlockType,
    pub content: String,
}

/// Mathematical shape of one block: kind, payload and content as sequences.
pub enum BlockModel {
    Text { content: Seq<char> },
    Code { lang: Seq<char>, content: Seq<char> },
    Heading { level: int, content: Seq<char> },
}

impl View for Block {
    type V = BlockModel;

    open spec fn view(&self) -> BlockModel {
        match self.block_type {
            BlockType::Text => BlockModel::Text { content: self.content@ },
            BlockType::Code(lang) => BlockModel::Code { lang: lang@, content: self.content@ },
            BlockType::Heading(level) => BlockModel::Heading {
                level: level as int,
                content: self.content@,
            },
        }
    }
}

/// The block models of a sequence of blocks, in order.
pub open spec fn views_of(blocks: Seq<Block>) -> Seq<BlockModel> {
    blocks.map_values(|b: Block| b@)
}

/// Whitespace as the segmenter trims it: the ASCII whitespace characters.
pub open spec fn is_ws(c: char) -> bool {
    c == ' ' || c == '\t' || c == '\n' || c == '\r' || c == '\u{b}' || c == '\u{c}'
}

/// The sequence with its leading whitespace removed.
pub open spec fn ltrim(s: Seq<char>) -> Seq<char>
    decreases s.len(),
{
    if s.len() == 0 {
        s
    } else if is_ws(s[0]) {
        ltrim(s.drop_first())
    } else {
        s
    }
}

/// The sequence with its trailing whitespace removed.
pub open spec fn rtrim(s: Seq<char>) -> Seq<char>
    decreases s.len(),
{
    if s.len() == 0 {
        s
    } else if is_ws(s.last()) {
        rtrim(s.drop_last())
    } else {
        s
    }
}

/// The sequence with leading and trailing whitespace removed.
pub open spec fn spec_trim(s: Seq<char>) -> Seq<char> {
    rtrim(ltrim(s))
}

/// Index of the first newline of `s`, or `s.len()` if there is none.
pub open spec fn first_nl(s: Seq<char>) -> int
    decreases s.len(),
{
    if s.len() == 0 {
        0
    } else if s[0] == '\n' {
        0
    } else {
        1 + first_nl(s.drop_first())
    }
}

/// The lines of `s`: the pieces between newline characters, a trailing
/// newline ending the last line rather than opening an empty one.
pub open spec fn spec_lines(s: Seq<char>) -> Seq<Seq<char>>
    decreases s.len(),
{
    if s.len() == 0 {
        Seq::empty()
    } else {
        let i = first_nl(s);
        if 0 <= i < s.len() {
            seq![s.take(i)] + spec_lines(s.skip(i + 1))
        } else {
            seq![s]
        }
    }
}

/// The number of leading `#` characters of `s`.
pub open spec fn leading_hashes(s: Seq<char>) -> int
    decreases s.len(),
{
    if s.len() == 0 {
        0
    } else if s[0] == '#' {
        1 + leading_hashes(s.drop_first())
    } else {
        0
    }
}

/// A line whose trimmed form starts with the three-backtick fence marker.
pub open spec fn is_fence_line(l: Seq<char>) -> bool {
    let t = spec_trim(l);
    t.len() >= 3 && t[0] == '`' && t[1] == '`' && t[2] == '`'
}

/// A line whose first character is `#`.
pub open spec fn is_heading_line(l: Seq<char>) -> bool {
    l.len() > 0 && l[0] == '#'
}

/// The language tag captured on a fence-opening line: everything after the
/// fence marker on the trimmed line.
pub open spec fn fence_tag(l: Seq<char>) -> Seq<char> {
    spec_trim(l).skip(3)
}

/// The level of a heading line: its count of leading `#` characters, held
/// to what an `i32` can carry.
pub open spec fn heading_level(l: Seq<char>) -> int {
    if leading_hashes(l) > i32::MAX as int {
        i32::MAX as int
    } else {
        leading_hashes(l)
    }
}

/// The content of a heading line: the trimmed line with its leading `#`
/// characters stripped, then trimmed of the whitespace this uncovers.
pub open spec fn heading_content(l: Seq<char>) -> Seq<char> {
    let t = spec_trim(l);
    spec_trim(t.skip(leading_hashes(t)))
}

/// The transient state of the single forward pass: whether a code fence is
/// open, the captured language tag, the accumulated content, and the blocks
/// emitted so far.
pub struct SegState {
    pub in_code: bool,
    pub lang: Seq<char>,
    pub acc: Seq<char>,
    pub out: Seq<BlockModel>,
}

/// The state the pass starts from: text mode, everything empty.
pub open spec fn seg_init() -> SegState {
    SegState { in_code: false, lang: Seq::empty(), acc: Seq::empty(), out: Seq::empty() }
}

/// One step of the pass: how a single line transforms the state.
///
/// A fence line toggles code mode, closing it with a Code block; a line
/// whose first character is `#` is emitted at once as a Heading, whatever
/// the mode; in code mode every other line is accumulated verbatim; in text
/// mode a blank line flushes a non-empty accumulator as a Text block and is
/// otherwise a no-op, and a non-blank line is accumulated.
pub open spec fn seg_step(st: SegState, l: Seq<char>) -> SegState {
    if is_fence_line(l) {
        if st.in_code {
            SegState {
                in_code: false,
                lang: Seq::empty(),
                acc: Seq::empty(),
                out: st.out.push(
                    BlockModel::Code { lang: st.lang, content: spec_trim(st.acc) },
                ),
            }
        } else {
            SegState { in_code: true, lang: fence_tag(l), acc: st.acc, out: st.out }
        }
    } else if is_heading_line(l) {
        SegState {
            in_code: st.in_code,
            lang: st.lang,
            acc: st.acc,
            out: st.out.push(
                BlockModel::Heading { level: heading_level(l), content: heading_content(l) },
            ),
        }
    } else if st.in_code {
        SegState { in_code: st.in_code, lang: st.lang, acc: st.acc + l + seq!['\n'], out: st.out }
    } else if l.len() == 0 {
        if st.acc.len() > 0 {
            SegState {
                in_code: st.in_code,
                lang: st.lang,
                acc: Seq::empty(),
                out: st.out.push(BlockModel::Text { content: spec_trim(st.acc) }),
            }
        } else {
            st
        }
    } else {
        SegState { in_code: st.in_code, lang: st.lang, acc: st.acc + l + seq!['\n'], out: st.out }
    }
}

/// The pass over a whole sequence of lines, from a given state.
pub open spec fn seg_fold(st: SegState, lines: Seq<Seq<char>>) -> SegState
    decreases lines.len(),
{
    if lines.len() == 0 {
        st
    } else {
        seg_fold(seg_step(st, lines[0]), lines.drop_first())
    }
}

/// The terminal flush: a non-empty accumulator becomes one final block,
/// Code if a fence is still open, Text otherwise.
pub open spec fn seg_finish(st: SegState) -> Seq<BlockModel> {
    if st.acc.len() > 0 {
        if st.in_code {
            st.out.push(BlockModel::Code { lang: st.lang, content: spec_trim(st.acc) })
        } else {
            st.out.push(BlockModel::Text { content: spec_trim(st.acc) })
        }
    } else {
        st.out
    }
}

/// The blocks that segmenting `input` yields.
pub open spec fn segment_spec(input: Seq<char>) -> Seq<BlockModel> {
    seg_finish(seg_fold(seg_init(), spec_lines(input)))
}

/// `first_nl` lands in bounds, on a newline when there is one, and nothing
/// before it is a newline.
proof fn lemma_first_nl_bounds(s: Seq<char>)
    ensures
        0 <= first_nl(s) <= s.len(),
        first_nl(s) < s.len() ==> s[first_nl(s)] == '\n',
        forall|j: int| 0 <= j < first_nl(s) ==> s[j] != '\n',
    decreases s.len(),
{
    if s.len() == 0 {
    } else if s[0] == '\n' {
    } else {
        lemma_first_nl_bounds(s.drop_first());
        assert forall|j: int| 0 <= j < first_nl(s) implies s[j] != '\n' by {
            if j > 0 {
                assert(s.drop_first()[j - 1] == s[j]);
            }
        }
    }
}

/// An index with no newline before it, and a newline (or the end) at it,
/// is where `first_nl` lands.
proof fn lemma_first_nl_at(s: Seq<char>, k: int)
    requires
        0 <= k <= s.len(),
        forall|j: int| 0 <= j < k ==> s[j] != '\n',
        k < s.len() ==> s[k] == '\n',
    ensures
        first_nl(s) == k,
    decreases s.len(),
{
    if s.len() == 0 {
    } else if s[0] == '\n' {
        assert(k == 0);
    } else {
        assert(k >= 1);
        assert forall|j: int| 0 <= j < k - 1 implies s.drop_first()[j] != '\n' by {
            assert(s.drop_first()[j] == s[j + 1]);
        }
        lemma_first_nl_at(s.drop_first(), k - 1);
    }
}

/// `ltrim` removes exactly the whitespace run at the front.
proof fn lemma_ltrim_at(s: Seq<char>, k: int)
    requires
        0 <= k <= s.len(),
        forall|j: int| 0 <= j < k ==> is_ws(s[j]),
        k < s.len() ==> !is_ws(s[k]),
    ensures
        ltrim(s) == s.skip(k),
    decreases k,
{
    if k == 0 {
        assert(s.skip(0) =~= s);
    } else {
        assert forall|j: int| 0 <= j < k - 1 implies is_ws(s.drop_first()[j]) by {
            assert(s.drop_first()[j] == s[j + 1]);
        }
        lemma_ltrim_at(s.drop_first(), k - 1);
        assert(s.drop_first().skip(k - 1) =~= s.skip(k));
    }
}

/// `rtrim` removes exactly the whitespace run at the back.
proof fn lemma_rtrim_at(s: Seq<char>, m: int)
    requires
        0 <= m <= s.len(),
        forall|j: int| m <= j < s.len() ==> is_ws(s[j]),
        m > 0 ==> !is_ws(s[m - 1]),
    ensures
        rtrim(s) == s.take(m),
    decreases s.len() - m,
{
    if m == s.len() {
        assert(s.take(m) =~= s);
    } else {
        assert(is_ws(s.last()));
        assert forall|j: int| m <= j < s.drop_last().len() implies is_ws(s.drop_last()[j]) by {
            assert(s.drop_last()[j] == s[j]);
        }
        lemma_rtrim_at(s.drop_last(), m);
        assert(s.drop_last().take(m) =~= s.take(m));
    }
}

/// `leading_hashes` counts exactly the run of `#` at the front.
proof fn lemma_leading_hashes_at(s: Seq<char>, k: int)
    requires
        0 <= k <= s.len(),
        forall|j: int| 0 <= j < k ==> s[j] == '#',
        k < s.len() ==> s[k] != '#',
    ensures
        leading_hashes(s) == k,
    decreases s.len(),
{
    if s.len() == 0 {
    } else if s[0] == '#' {
        assert(k >= 1);
        assert forall|j: int| 0 <= j < k - 1 implies s.drop_first()[j] == '#' by {
            assert(s.drop_first()[j] == s[j + 1]);
        }
        lemma_leading_hashes_at(s.drop_first(), k - 1);
    } else {
        assert(k == 0);
    }
}

/// Whether one character is segmenter whitespace.
fn is_ws_exec(c: char) -> (r: bool)
    ensures
        r == is_ws(c),
{
    c == ' ' || c == '\t' || c == '\n' || c == '\r' || c == '\u{b}' || c == '\u{c}'
}

/// The slice of `s` with leading and trailing whitespace removed.
fn trim_str<'a>(s: &'a str) -> (r: &'a str)
    ensures
        r@ == spec_trim(s@),
{
    let n = s.unicode_len();
    let mut lo: usize = 0;
    while lo < n && is_ws_exec(s.get_char(lo))
        invariant
            n == s@.len(),
            lo <= n,
            forall|j: int| 0 <= j < lo ==> is_ws(s@[j]),
        decreases n - lo,
    {
        lo = lo + 1;
    }
    let mut hi: usize = n;
    while lo < hi && is_ws_exec(s.get_char(hi - 1))
        invariant
            n == s@.len(),
            lo <= hi <= n,
            forall|j: int| hi <= j < n ==> is_ws(s@[j]),
        decreases hi,
    {
        hi = hi - 1;
    }
    proof {
        lemma_ltrim_at(s@, lo as int);
        let t = s@.skip(lo as int);
        assert forall|j: int| hi - lo <= j < t.len() implies is_ws(t[j]) by {
            assert(t[j] == s@[j + lo]);
        }
        lemma_rtrim_at(t, hi - lo as int);
        assert(t.take(hi - lo as int) =~= s@.subrange(lo as int, hi as int));
    }
    s.substring_char(lo, hi)
}

/// An owned copy of `s` with leading and trailing whitespace removed.
fn trimmed_string(s: &str) -> (r: String)
    ensures
        r@ == spec_trim(s@),
{
    String::from_str(trim_str(s))
}

/// The count of leading `#` characters of `s`, as a machine word.
fn leading_hashes_str(s: &str) -> (r: usize)
    ensures
        r as int == leading_hashes(s@),
        r <= s@.len(),
{
    let n = s.unicode_len();
    let mut k: usize = 0;
    while k < n && s.get_char(k) == '#'
        invariant
            n == s@.len(),
            k <= n,
            forall|j: int| 0 <= j < k ==> s@[j] == '#',
        decreases n - k,
    {
        k = k + 1;
    }
    proof {
        lemma_leading_hashes_at(s@, k as int);
    }
    k
}

/// The heading level of `line`, held to what an `i32` can carry.
fn heading_level_exec(line: &str) -> (r: i32)
    ensures
        r as int == heading_level(line@),
{
    let k = leading_hashes_str(line);
    if k > (i32::MAX as usize) {
        i32::MAX
    } else {
        k as i32
    }
}

/// A state as the pass's variables carry it.
spec fn abs_state(in_code: bool, lang: Seq<char>, acc: Seq<char>, out: Seq<BlockModel>) -> SegState {
    SegState { in_code: in_code, lang: lang, acc: acc, out: out }
}

/// Mapping blocks to their models commutes with appending one block.
proof fn lemma_views_push(blocks: Seq<Block>, b: Block)
    ensures
        views_of(blocks.push(b)) == views_of(blocks).push(b@),
{
    assert(views_of(blocks.push(b)) =~= views_of(blocks).push(b@));
}

/// Applies one line to the pass's state, exactly as `seg_step` describes.
fn handle_line(
    line: &str,
    in_code: &mut bool,
    lang: &mut String,
    acc: &mut String,
    blocks: &mut Vec<Block>,
)
    ensures
        abs_state(*final(in_code), final(lang)@, final(acc)@, views_of(final(blocks)@))
            == seg_step(
            abs_state(*old(in_code), old(lang)@, old(acc)@, views_of(old(blocks)@)),
            line@,
        ),
{
    let t = trim_str(line);
    let tn = t.unicode_len();
    if tn >= 3 && t.get_char(0) == '`' && t.get_char(1) == '`' && t.get_char(2) == '`' {
        assert(is_fence_line(line@));
        if *in_code {
            let language = lang.clone();
            let content = trimmed_string(acc.as_str());
            let b = Block { block_type: BlockType::Code(language), content: content };
            proof {
                lemma_views_push(blocks@, b);
            }
            blocks.push(b);
            *in_code = false;
            *acc = String::new();
            *lang = String::new();
        } else {
            *in_code = true;
            *lang = String::from_str(t.substring_char(3, tn));
            proof {
                assert(spec_trim(line@).subrange(3, tn as int) =~= fence_tag(line@));
            }
        }
    } else {
        assert(!is_fence_line(line@));
        let ln = line.unicode_len();
        if ln > 0 && line.get_char(0) == '#' {
            let level = heading_level_exec(line);
            let k = leading_hashes_str(t);
            let content = trimmed_string(t.substring_char(k, tn));
            let b = Block { block_type: BlockType::Heading(level), content: content };
            proof {
                assert(spec_trim(line@).subrange(k as int, tn as int) =~= spec_trim(
                    line@,
                ).skip(leading_hashes(spec_trim(line@))));
                lemma_views_push(blocks@, b);
            }
            blocks.push(b);
        } else if *in_code {
            acc.append(line);
            acc.append("\n");
            proof {
                reveal_strlit("\n");
                assert("\n"@ =~= seq!['\n']);
                assert(final(acc)@ =~= old(acc)@ + line@ + seq!['\n']);
            }
        } else if ln == 0 {
            if !acc.as_str().is_empty() {
                let content = trimmed_string(acc.as_str());
                let b = Block { block_type: BlockType::Text, content: content };
                proof {
                    lemma_views_push(blocks@, b);
                }
                blocks.push(b);
                *acc = String::new();
            }
        } else {
            acc.append(line);
            acc.append("\n");
            proof {
                reveal_strlit("\n");
                assert("\n"@ =~= seq!['\n']);
                assert(final(acc)@ =~= old(acc)@ + line@ + seq!['\n']);
            }
        }
    }
}

/// Splitting into lines distributes over concatenation at a newline
/// boundary: a prefix that ends on a newline contributes its own lines.
proof fn lemma_lines_append(s: Seq<char>, t: Seq<char>)
    requires
        s.len() == 0 || s.last() == '\n',
    ensures
        spec_lines(s + t) == spec_lines(s) + spec_lines(t),
    decreases s.len(),
{
    if s.len() == 0 {
        assert(s + t =~= t);
        assert(spec_lines(s) + spec_lines(t) =~= spec_lines(t));
    } else {
        lemma_first_nl_bounds(s);
        let i = first_nl(s);
        assert(i < s.len()) by {
            if i == s.len() {
                assert(s[s.len() - 1] != '\n');
            }
        }
        lemma_first_nl_bounds(s + t);
        assert forall|j: int| 0 <= j < i implies (s + t)[j] != '\n' by {
            assert((s + t)[j] == s[j]);
        }
        assert((s + t)[i] == s[i]);
        lemma_first_nl_at(s + t, i);
        assert((s + t).take(i) =~= s.take(i));
        assert((s + t).skip(i + 1) =~= s.skip(i + 1) + t);
        if s.skip(i + 1).len() > 0 {
            assert(s.skip(i + 1).last() == s.last());
        }
        lemma_lines_append(s.skip(i + 1), t);
        assert(spec_lines(s + t) =~= spec_lines(s) + spec_lines(t));
    }
}

/// A newline-free piece followed by a newline is exactly one line; on its
/// own it is one line, or none when it is empty.
proof fn lemma_lines_single(l: Seq<char>)
    requires
        forall|j: int| 0 <= j < l.len() ==> l[j] != '\n',
    ensures
        spec_lines(l.push('\n')) == seq![l],
        spec_lines(l) == if l.len() == 0 {
            Seq::<Seq<char>>::empty()
        } else {
            seq![l]
        },
{
    let p = l.push('\n');
    assert forall|j: int| 0 <= j < l.len() implies p[j] != '\n' by {
        assert(p[j] == l[j]);
    }
    assert(p[l.len() as int] == '\n');
    lemma_first_nl_at(p, l.len() as int);
    assert(p.take(l.len() as int) =~= l);
    assert(p.skip(l.len() as int + 1) =~= Seq::<char>::empty());
    reveal_with_fuel(spec_lines, 2);
    assert(spec_lines(p) =~= seq![l]);
    if l.len() > 0 {
        lemma_first_nl_at(l, l.len() as int);
        assert(spec_lines(l) =~= seq![l]);
    }
}

/// Folding over one more line at the end is one more step.
proof fn lemma_fold_push(st: SegState, lines: Seq<Seq<char>>, l: Seq<char>)
    ensures
        seg_fold(st, lines.push(l)) == seg_step(seg_fold(st, lines), l),
    decreases lines.len(),
{
    if lines.len() == 0 {
        reveal_with_fuel(seg_fold, 2);
        assert(lines.push(l)[0] == l);
        assert(lines.push(l).drop_first() =~= Seq::<Seq<char>>::empty());
    } else {
        assert(lines.push(l)[0] == lines[0]);
        assert(lines.push(l).drop_first() =~= lines.drop_first().push(l));
        lemma_fold_push(seg_step(st, lines[0]), lines.drop_first(), l);
    }
}

/// Segments `input` into its ordered sequence of renderable blocks.
///
/// The result is, block for block, the value of the mathematical model
/// [`segment_spec`] on the input's characters: one forward pass over the
/// lines, fenced code collected between toggling fence markers, `#`-lines
/// emitted at once as headings, text flushed at blank lines, and a final
/// flush so that no trailing content is dropped. The function is total:
/// every input yields a (possibly empty) block sequence.
pub fn parse_markdown(input: &str) -> (blocks: Vec<Block>)
    ensures
        views_of(blocks@) == segment_spec(input@),
{
    let n = input.unicode_len();
    let mut in_code: bool = false;
    let mut lang: String = String::new();
    let mut acc: String = String::new();
    let mut blocks: Vec<Block> = Vec::new();
    let mut i: usize = 0;
    let mut line_start: usize = 0;
    proof {
        assert(input@.take(0) =~= Seq::<char>::empty());
        assert(views_of(blocks@) =~= Seq::<BlockModel>::empty());
    }
    while i < n
        invariant
            n == input@.len(),
            line_start <= i <= n,
            forall|j: int| line_start <= j < i ==> input@[j] != '\n',
            line_start == 0 || input@[line_start - 1] == '\n',
            abs_state(in_code, lang@, acc@, views_of(blocks@)) == seg_fold(
                seg_init(),
                spec_lines(input@.take(line_start as int)),
            ),
        decreases n - i,
    {
        let c = input.get_char(i);
        if c == '\n' {
            let line = input.substring_char(line_start, i);
            proof {
                let pre = input@.take(line_start as int);
                let lseq = input@.subrange(line_start as int, i as int);
                assert(input@.take(i + 1 as int) =~= pre + lseq.push('\n'));
                lemma_lines_append(pre, lseq.push('\n'));
                lemma_lines_single(lseq);
                assert(spec_lines(pre) + seq![lseq] =~= spec_lines(pre).push(lseq));
                lemma_fold_push(seg_init(), spec_lines(pre), lseq);
            }
            handle_line(line, &mut in_code, &mut lang, &mut acc, &mut blocks);
            line_start = i + 1;
        }
        i = i + 1;
    }
    if line_start < n {
        let line = input.substring_char(line_start, n);
        proof {
            let pre = input@.take(line_start as int);
            let lseq = input@.subrange(line_start as int, n as int);
            assert(input@ =~= pre + lseq);
            lemma_lines_append(pre, lseq);
            lemma_lines_single(lseq);
            assert(spec_lines(pre) + seq![lseq] =~= spec_lines(pre).push(lseq));
            lemma_fold_push(seg_init(), spec_lines(pre), lseq);
        }
        handle_line(line, &mut in_code, &mut lang, &mut acc, &mut blocks);
    } else {
        proof {
            assert(input@.take(line_start as int) =~= input@);
        }
    }
    if !acc.as_str().is_empty() {
        let content = trimmed_string(acc.as_str());
        if in_code {
            let b = Block { block_type: BlockType::Code(lang), content: content };
            proof {
                lemma_views_push(blocks@, b);
            }
            blocks.push(b);
        } else {
            let b = Block { block_type: BlockType::Text, content: content };
            proof {
                lemma_views_push(blocks@, b);
            }
            blocks.push(b);
        }
    }
    blocks
}

/// How many of the blocks are headings.
pub open spec fn count_heading_blocks(bs: Seq<BlockModel>) -> int
    decreases bs.len(),
{
    if bs.len() == 0 {
        0
    } else {
        count_heading_blocks(bs.drop_last()) + if bs.last() is Heading {
            1int
        } else {
            0int
        }
    }
}

/// How many of the lines have `#` as their first character.
pub open spec fn count_heading_lines(ls: Seq<Seq<char>>) -> int
    decreases ls.len(),
{
    if ls.len() == 0 {
        0
    } else {
        (if is_heading_line(ls[0]) {
            1int
        } else {
            0int
        }) + count_heading_lines(ls.drop_first())
    }
}

/// Trimming the back of a sequence cannot disturb a non-whitespace head.
proof fn lemma_rtrim_keeps_head(s: Seq<char>)
    requires
        s.len() > 0,
        !is_ws(s[0]),
    ensures
        rtrim(s).len() > 0,
        rtrim(s)[0] == s[0],
    decreases s.len(),
{
    if is_ws(s.last()) {
        assert(s.len() > 1);
        assert(s.drop_last()[0] == s[0]);
        lemma_rtrim_keeps_head(s.drop_last());
    }
}

/// A line whose first character is `#` is never taken for a fence line.
proof fn lemma_heading_not_fence(l: Seq<char>)
    requires
        is_heading_line(l),
    ensures
        !is_fence_line(l),
{
    assert(!is_ws('#'));
    assert(ltrim(l) == l);
    lemma_rtrim_keeps_head(l);
    assert(spec_trim(l)[0] == '#');
}

/// Appending one block changes the heading count by one exactly when the
/// block is a heading.
proof fn lemma_count_push(bs: Seq<BlockModel>, b: BlockModel)
    ensures
        count_heading_blocks(bs.push(b)) == count_heading_blocks(bs) + if b is Heading {
            1int
        } else {
            0int
        },
{
    assert(bs.push(b).drop_last() =~= bs);
    assert(bs.push(b).last() == b);
}

/// One step emits one heading block exactly on a `#`-line.
proof fn lemma_step_heading_count(st: SegState, l: Seq<char>)
    ensures
        count_heading_blocks(seg_step(st, l).out) == count_heading_blocks(st.out)
            + if is_heading_line(l) {
            1int
        } else {
            0int
        },
{
    if is_heading_line(l) {
        lemma_heading_not_fence(l);
        lemma_count_push(
            st.out,
            BlockModel::Heading { level: heading_level(l), content: heading_content(l) },
        );
    } else if is_fence_line(l) {
        if st.in_code {
            lemma_count_push(st.out, BlockModel::Code { lang: st.lang, content: spec_trim(st.acc) });
        }
    } else if !st.in_code && l.len() == 0 && st.acc.len() > 0 {
        lemma_count_push(st.out, BlockModel::Text { content: spec_trim(st.acc) });
    }
}

/// Over a whole pass, heading blocks accumulate one per `#`-line.
proof fn lemma_fold_heading_count(st: SegState, ls: Seq<Seq<char>>)
    ensures
        count_heading_blocks(seg_fold(st, ls).out) == count_heading_blocks(st.out)
            + count_heading_lines(ls),
    decreases ls.len(),
{
    if ls.len() > 0 {
        lemma_step_heading_count(st, ls[0]);
        lemma_fold_heading_count(seg_step(st, ls[0]), ls.drop_first());
    }
}

/// For every input, segmenting yields exactly as many Heading blocks as
/// the input has lines whose first character is `#`.
pub proof fn lemma_heading_count(input: Seq<char>)
    ensures
        count_heading_blocks(segment_spec(input)) == count_heading_lines(spec_lines(input)),
{
    lemma_fold_heading_count(seg_init(), spec_lines(input));
    let st = seg_fold(seg_init(), spec_lines(input));
    if st.acc.len() > 0 {
        if st.in_code {
            lemma_count_push(st.out, BlockModel::Code { lang: st.lang, content: spec_trim(st.acc) });
        } else {
            lemma_count_push(st.out, BlockModel::Text { content: spec_trim(st.acc) });
        }
    }
}

/// Stepping the initial state with a blank line leaves it untouched.
proof fn lemma_step_blank(l: Seq<char>)
    requires
        l.len() == 0,
    ensures
        seg_step(seg_init(), l) == seg_init(),
{
    assert(ltrim(l) == l);
    assert(rtrim(l) == l);
    assert(!is_fence_line(l));
}

/// A pass over blank lines only never leaves the initial state.
proof fn lemma_fold_blank(ls: Seq<Seq<char>>)
    requires
        forall|k: int| 0 <= k < ls.len() ==> ls[k].len() == 0,
    ensures
        seg_fold(seg_init(), ls) == seg_init(),
    decreases ls.len(),
{
    if ls.len() > 0 {
        lemma_step_blank(ls[0]);
        lemma_fold_blank(ls.drop_first());
    }
}

/// Segmenting an input consisting only of blank lines yields no blocks.
pub proof fn lemma_blank_lines_yield_nothing(input: Seq<char>)
    requires
        forall|k: int| 0 <= k < spec_lines(input).len() ==> spec_lines(input)[k].len() == 0,
    ensures
        segment_spec(input) == Seq::<BlockModel>::empty(),
{
    lemma_fold_blank(spec_lines(input));
}

/// The lines, each followed by one newline — the shape an accumulator takes.
pub open spec fn join_nl(ls: Seq<Seq<char>>) -> Seq<char>
    decreases ls.len(),
{
    if ls.len() == 0 {
        Seq::empty()
    } else {
        ls[0] + seq!['\n'] + join_nl(ls.drop_first())
    }
}

/// The lines joined by single newlines, none at the end.
pub open spec fn join_with_nl(ls: Seq<Seq<char>>) -> Seq<char>
    decreases ls.len(),
{
    if ls.len() == 0 {
        Seq::empty()
    } else if ls.len() == 1 {
        ls[0]
    } else {
        ls[0] + seq!['\n'] + join_with_nl(ls.drop_first())
    }
}

/// Trimming the front never lengthens a sequence.
proof fn lemma_ltrim_len(s: Seq<char>)
    ensures
        ltrim(s).len() <= s.len(),
    decreases s.len(),
{
    if s.len() > 0 && is_ws(s[0]) {
        lemma_ltrim_len(s.drop_first());
    }
}

/// Trimming the back never lengthens a sequence.
proof fn lemma_rtrim_len(s: Seq<char>)
    ensures
        rtrim(s).len() <= s.len(),
    decreases s.len(),
{
    if s.len() > 0 && is_ws(s.last()) {
        lemma_rtrim_len(s.drop_last());
    }
}

/// A non-empty sequence that trimming leaves alone has no whitespace at
/// either end.
proof fn lemma_trim_fixpoint_ends(t: Seq<char>)
    requires
        spec_trim(t) == t,
        t.len() > 0,
    ensures
        !is_ws(t[0]),
        !is_ws(t.last()),
{
    if is_ws(t[0]) {
        assert(ltrim(t) == ltrim(t.drop_first()));
        lemma_ltrim_len(t.drop_first());
        lemma_rtrim_len(ltrim(t));
        assert(spec_trim(t).len() < t.len());
    }
    if is_ws(t.last()) {
        assert(ltrim(t) == t);
        assert(rtrim(t) == rtrim(t.drop_last()));
        lemma_rtrim_len(t.drop_last());
        assert(spec_trim(t).len() < t.len());
    }
}

/// Appending one whitespace character does not change the trimmed value.
proof fn lemma_trim_push_ws(s: Seq<char>, c: char)
    requires
        is_ws(c),
    ensures
        spec_trim(s.push(c)) == spec_trim(s),
    decreases s.len(),
{
    let p = s.push(c);
    if s.len() == 0 {
        reveal_with_fuel(ltrim, 2);
        assert(p.drop_first() =~= Seq::<char>::empty());
        assert(ltrim(p) =~= Seq::<char>::empty());
    } else if is_ws(s[0]) {
        assert(p.drop_first() =~= s.drop_first().push(c));
        lemma_trim_push_ws(s.drop_first(), c);
        assert(ltrim(p) == ltrim(s.drop_first().push(c)));
        assert(ltrim(s) == ltrim(s.drop_first()));
    } else {
        assert(!is_ws(p[0]));
        assert(ltrim(p) == p);
        assert(ltrim(s) == s);
        assert(p.drop_last() =~= s);
        assert(rtrim(p) == rtrim(s));
    }
}

/// The two joins differ by exactly one trailing newline.
proof fn lemma_join_nl_with(ls: Seq<Seq<char>>)
    ensures
        join_nl(ls) == if ls.len() == 0 {
            Seq::<char>::empty()
        } else {
            join_with_nl(ls).push('\n')
        },
    decreases ls.len(),
{
    if ls.len() == 0 {
    } else if ls.len() == 1 {
        assert(join_nl(ls.drop_first()) =~= Seq::<char>::empty());
        assert(ls[0] + seq!['\n'] + Seq::<char>::empty() =~= ls[0].push('\n'));
    } else {
        lemma_join_nl_with(ls.drop_first());
        assert(ls[0] + seq!['\n'] + join_with_nl(ls.drop_first()).push('\n') =~= (ls[0]
            + seq!['\n'] + join_with_nl(ls.drop_first())).push('\n'));
    }
}

/// Splitting a join of newline-free lines gives those lines back, ahead of
/// whatever follows.
proof fn lemma_lines_join_nl(ls: Seq<Seq<char>>, t: Seq<char>)
    requires
        forall|k: int, j: int| 0 <= k < ls.len() && 0 <= j < ls[k].len() ==> ls[k][j] != '\n',
    ensures
        spec_lines(join_nl(ls) + t) == ls + spec_lines(t),
    decreases ls.len(),
{
    if ls.len() == 0 {
        assert(join_nl(ls) + t =~= t);
        assert(ls + spec_lines(t) =~= spec_lines(t));
    } else {
        let l0 = ls[0];
        assert(join_nl(ls) + t =~= (l0.push('\n')) + (join_nl(ls.drop_first()) + t));
        lemma_lines_single(l0);
        lemma_lines_append(l0.push('\n'), join_nl(ls.drop_first()) + t);
        assert forall|k: int, j: int|
            0 <= k < ls.drop_first().len() && 0 <= j < ls.drop_first()[k].len() implies ls.drop_first()[k][j]
            != '\n' by {
            assert(ls.drop_first()[k] == ls[k + 1]);
        }
        lemma_lines_join_nl(ls.drop_first(), t);
        assert(seq![l0] + (ls.drop_first() + spec_lines(t)) =~= ls + spec_lines(t));
    }
}

/// A pass over concatenated line lists is the pass over one, then the other.
proof fn lemma_fold_append(st: SegState, a: Seq<Seq<char>>, b: Seq<Seq<char>>)
    ensures
        seg_fold(st, a + b) == seg_fold(seg_fold(st, a), b),
    decreases a.len(),
{
    if a.len() == 0 {
        assert(a + b =~= b);
    } else {
        assert((a + b)[0] == a[0]);
        assert((a + b).drop_first() =~= a.drop_first() + b);
        lemma_fold_append(seg_step(st, a[0]), a.drop_first(), b);
    }
}

/// A line that is plain running text: non-blank, no fence marker, and not
/// a heading.
pub open spec fn is_plain_line(l: Seq<char>) -> bool {
    l.len() > 0 && !is_fence_line(l) && !is_heading_line(l)
}

/// A line that can stand in a fenced body without closing the fence or
/// being pulled out as a heading.
pub open spec fn is_code_body_line(l: Seq<char>) -> bool {
    (forall|j: int| 0 <= j < l.len() ==> l[j] != '\n') && !is_fence_line(l) && !is_heading_line(l)
}

/// In text mode, plain lines only accumulate: no block is emitted and the
/// accumulator grows by the lines, each with its newline.
proof fn lemma_fold_plain(st: SegState, ls: Seq<Seq<char>>)
    requires
        !st.in_code,
        forall|k: int| 0 <= k < ls.len() ==> is_plain_line(ls[k]),
    ensures
        seg_fold(st, ls) == (SegState {
            in_code: false,
            lang: st.lang,
            acc: st.acc + join_nl(ls),
            out: st.out,
        }),
    decreases ls.len(),
{
    if ls.len() == 0 {
        assert(st.acc + join_nl(ls) =~= st.acc);
    } else {
        let st1 = seg_step(st, ls[0]);
        lemma_fold_plain(st1, ls.drop_first());
        assert(st1.acc + join_nl(ls.drop_first()) =~= st.acc + join_nl(ls));
    }
}

/// In code mode, body lines only accumulate, verbatim.
proof fn lemma_fold_code(st: SegState, ls: Seq<Seq<char>>)
    requires
        st.in_code,
        forall|k: int| 0 <= k < ls.len() ==> is_code_body_line(ls[k]),
    ensures
        seg_fold(st, ls) == (SegState {
            in_code: true,
            lang: st.lang,
            acc: st.acc + join_nl(ls),
            out: st.out,
        }),
    decreases ls.len(),
{
    if ls.len() == 0 {
        assert(st.acc + join_nl(ls) =~= st.acc);
    } else {
        let st1 = seg_step(st, ls[0]);
        lemma_fold_code(st1, ls.drop_first());
        assert(st1.acc + join_nl(ls.drop_first()) =~= st.acc + join_nl(ls));
    }
}

/// Joining the lines of `s` restores `s`, up to one trailing newline.
proof fn lemma_join_lines(s: Seq<char>)
    ensures
        join_nl(spec_lines(s)) == if s.len() == 0 {
            s
        } else if s.last() == '\n' {
            s
        } else {
            s.push('\n')
        },
    decreases s.len(),
{
    if s.len() == 0 {
        assert(join_nl(spec_lines(s)) =~= s);
    } else {
        lemma_first_nl_bounds(s);
        let i = first_nl(s);
        if i < s.len() {
            let rest = s.skip(i + 1);
            lemma_join_lines(rest);
            let ls = spec_lines(s);
            assert(ls == seq![s.take(i)] + spec_lines(rest));
            assert(ls[0] == s.take(i));
            assert(ls.drop_first() =~= spec_lines(rest));
            if rest.len() == 0 {
                assert(join_nl(spec_lines(rest)) =~= Seq::<char>::empty());
                assert(s.take(i) + seq!['\n'] + Seq::<char>::empty() =~= s);
                assert(s.last() == '\n');
            } else if rest.last() == '\n' {
                assert(s.last() == rest.last());
                assert(s.take(i) + seq!['\n'] + rest =~= s);
            } else {
                assert(s.last() == rest.last());
                assert(s.take(i) + seq!['\n'] + rest.push('\n') =~= s.push('\n'));
            }
        } else {
            assert(spec_lines(s) == seq![s]);
            assert(spec_lines(s)[0] == s);
            assert(spec_lines(s).drop_first() =~= Seq::<Seq<char>>::empty());
            assert(join_nl(spec_lines(s).drop_first()) =~= Seq::<char>::empty());
            assert(s + seq!['\n'] + Seq::<char>::empty() =~= s.push('\n'));
            assert(s.last() != '\n');
        }
    }
}

/// Segmenting an input with no blank lines, no `#`-lines and no fence
/// markers yields exactly one Text block holding the trimmed input.
pub proof fn lemma_plain_text_single_block(input: Seq<char>)
    requires
        input.len() > 0,
        forall|k: int| 0 <= k < spec_lines(input).len() ==> is_plain_line(spec_lines(input)[k]),
    ensures
        segment_spec(input) == seq![BlockModel::Text { content: spec_trim(input) }],
{
    let ls = spec_lines(input);
    lemma_fold_plain(seg_init(), ls);
    let st = seg_fold(seg_init(), ls);
    assert(st.acc =~= join_nl(ls));
    lemma_join_lines(input);
    if input.last() == '\n' {
        assert(st.acc == input);
    } else {
        assert(st.acc == input.push('\n'));
        lemma_trim_push_ws(input, '\n');
    }
    assert(st.acc.len() > 0);
    assert(seg_finish(st) =~= seq![BlockModel::Text { content: spec_trim(input) }]);
}

/// The exact text of one fenced block: the opening marker carrying the
/// tag, the body lines, the closing marker.
pub open spec fn fenced_input(tag: Seq<char>, body: Seq<Seq<char>>) -> Seq<char> {
    seq!['`', '`', '`'] + tag + seq!['\n'] + join_nl(body) + seq!['`', '`', '`'] + seq!['\n']
}

/// Segmenting a single well-formed fenced block yields exactly one Code
/// block: its language is the tag, its content the body lines joined by
/// newlines and trimmed.
pub proof fn lemma_single_fenced_block(tag: Seq<char>, body: Seq<Seq<char>>)
    requires
        spec_trim(tag) == tag,
        forall|j: int| 0 <= j < tag.len() ==> tag[j] != '\n',
        forall|k: int| 0 <= k < body.len() ==> is_code_body_line(body[k]),
    ensures
        segment_spec(fenced_input(tag, body)) == seq![
            BlockModel::Code { lang: tag, content: spec_trim(join_with_nl(body)) },
        ],
{
    let open_line = seq!['`', '`', '`'] + tag;
    let close_line = seq!['`', '`', '`'];
    let input = fenced_input(tag, body);

    // The input splits into the opening line, the body lines, the closing line.
    assert(input =~= open_line.push('\n') + (join_nl(body) + close_line.push('\n')));
    assert forall|j: int| 0 <= j < open_line.len() implies open_line[j] != '\n' by {}
    lemma_lines_single(open_line);
    lemma_lines_append(open_line.push('\n'), join_nl(body) + close_line.push('\n'));
    lemma_lines_single(close_line);
    lemma_lines_join_nl(body, close_line.push('\n'));
    let ls = spec_lines(input);
    assert(ls =~= seq![open_line] + (body + seq![close_line]));

    // The opening line is its own trimmed form and reads as a fence.
    assert(!is_ws('`'));
    assert(ltrim(open_line) == open_line);
    if tag.len() > 0 {
        lemma_trim_fixpoint_ends(tag);
        assert(open_line.last() == tag.last());
    }
    assert(rtrim(open_line) == open_line);
    assert(is_fence_line(open_line));
    assert(fence_tag(open_line) =~= tag);

    // So the pass opens a fence, accumulates the body, and closes.
    lemma_fold_append(seg_init(), seq![open_line], body + seq![close_line]);
    lemma_fold_append(seg_step(seg_init(), open_line), body, seq![close_line]);
    reveal_with_fuel(seg_fold, 2);
    assert(seg_fold(seg_init(), seq![open_line]) == seg_step(seg_init(), open_line));
    let st1 = seg_step(seg_init(), open_line);
    assert(st1 == SegState {
        in_code: true,
        lang: tag,
        acc: Seq::<char>::empty(),
        out: Seq::<BlockModel>::empty(),
    });
    lemma_fold_code(st1, body);
    let st2 = seg_fold(st1, body);
    assert(st2.acc =~= join_nl(body));

    assert(ltrim(close_line) == close_line);
    assert(rtrim(close_line) == close_line);
    assert(is_fence_line(close_line));
    let st3 = seg_step(st2, close_line);
    assert(seg_fold(st2, seq![close_line]) == st3);
    assert(st3.out =~= seq![
        BlockModel::Code { lang: tag, content: spec_trim(join_nl(body)) },
    ]);

    // The joined body differs from the accumulator by one trailing newline,
    // which trimming removes.
    lemma_join_nl_with(body);
    if body.len() > 0 {
        lemma_trim_push_ws(join_with_nl(body), '\n');
    }
    assert(segment_spec(input) =~= seq![
        BlockModel::Code { lang: tag, content: spec_trim(join_with_nl(body)) },
    ]);
}

} // verus!
