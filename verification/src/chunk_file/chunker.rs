//! The chunker: greedy packing of lines into chunks under a budget of tokens.

use crate::chunk_file::ChunkView;
use crate::chunk_file::UnLearnedChunk;
use crate::text::lines;
use crate::text::split_lines;
use crate::tokenizer::cl100k_token_count;
use crate::tokenizer::count_tokens;
use crate::tokenizer::MAX_TOKENIZED_CHARS;
use vstd::prelude::*;
use vstd::string::StrSliceExecFns;
use vstd::string::StringExecFns;

verus! {

/// A line as the chunker sees it: its text with the terminator, the 1-based number of
/// the unit it stands in, and its token count.
pub struct Line {
    pub text: Seq<char>,
    pub page: nat,
    pub tokens: nat,
}

/// A line of a unit with its token count. `text` holds the line without a terminator.
#[derive(Clone, Debug)]
pub struct CountedLine {
    pub text: String,
    pub page: usize,
    pub tokens: usize,
}

impl View for CountedLine {
    type V = Line;

    open spec fn view(&self) -> Line {
        Line { text: self.text@.push('\n'), page: self.page as nat, tokens: self.tokens as nat }
    }
}

impl DeepView for CountedLine {
    type V = Line;

    open spec fn deep_view(&self) -> Line {
        self@
    }
}

/// The token counts of `lines`, added up.
pub open spec fn tokens_of(lines: Seq<Line>) -> nat
    decreases lines.len(),
{
    if lines.len() == 0 {
        0
    } else {
        tokens_of(lines.drop_last()) + lines.last().tokens
    }
}

/// The texts of `lines`, one after the other.
pub open spec fn text_of(lines: Seq<Line>) -> Seq<char>
    decreases lines.len(),
{
    if lines.len() == 0 {
        Seq::empty()
    } else {
        text_of(lines.drop_last()) + lines.last().text
    }
}

/// Lines sorted into groups: the groups that are closed, and the lines of the group that
/// is still open.
pub struct Grouping {
    pub done: Seq<Seq<Line>>,
    pub open: Seq<Line>,
}

/// Greedy grouping: each line joins the open group, and the group closes as soon as its
/// token count exceeds `budget`.
pub open spec fn group_lines(lines: Seq<Line>, budget: nat) -> Grouping
    decreases lines.len(),
{
    if lines.len() == 0 {
        Grouping { done: Seq::empty(), open: Seq::empty() }
    } else {
        let before = group_lines(lines.drop_last(), budget);
        let grown = before.open.push(lines.last());
        if tokens_of(grown) > budget {
            Grouping { done: before.done.push(grown), open: Seq::empty() }
        } else {
            Grouping { done: before.done, open: grown }
        }
    }
}

/// The groups into which `lines` fall: the closed ones, then the open one if it holds a
/// line.
pub open spec fn groups(lines: Seq<Line>, budget: nat) -> Seq<Seq<Line>> {
    let grouping = group_lines(lines, budget);
    if grouping.open.len() == 0 {
        grouping.done
    } else {
        grouping.done.push(grouping.open)
    }
}

/// The chunk that a group of lines makes: their texts, and the page of the first.
pub open spec fn chunk_of(group: Seq<Line>) -> ChunkView {
    ChunkView { content: text_of(group), page: group[0].page }
}

/// The chunks into which `lines` are packed under a budget of `budget` tokens.
pub open spec fn packed(lines: Seq<Line>, budget: nat) -> Seq<ChunkView> {
    groups(lines, budget).map_values(|group: Seq<Line>| chunk_of(group))
}

proof fn lemma_push_line(lines: Seq<Line>, line: Line)
    ensures
        tokens_of(lines.push(line)) == tokens_of(lines) + line.tokens,
        text_of(lines.push(line)) == text_of(lines) + line.text,
{
    assert(lines.push(line).drop_last() =~= lines);
}

/// Packs counted lines into chunks. A chunk is closed after the line that takes its
/// token count over `budget`; what is left open after the last line is the last chunk.
pub fn pack_lines(lines: &Vec<CountedLine>, budget: usize) -> (chunks: Vec<UnLearnedChunk>)
    ensures
        chunks.deep_view() == packed(lines.deep_view(), budget as nat),
        contents_of(chunks.deep_view()) == text_of(lines.deep_view()),
        within_budget(groups(lines.deep_view(), budget as nat), budget as nat),
        lines.len() > 0 && tokens_of(lines.deep_view()) <= budget ==> chunks.deep_view() == seq![
            chunk_of(lines.deep_view()),
        ],
{
    proof {
        lemma_packing_keeps_text(lines.deep_view(), budget as nat);
        lemma_token_bound(lines.deep_view(), budget as nat);
        if lines.len() > 0 && tokens_of(lines.deep_view()) <= budget {
            lemma_carry_over(lines.deep_view(), budget as nat);
        }
    }
    let mut chunks: Vec<UnLearnedChunk> = Vec::new();
    let mut chunk = UnLearnedChunk::default();
    let mut current_tokens: usize = 0;
    let mut i: usize = 0;
    let ghost all = lines.deep_view();
    assert(all.take(0) =~= Seq::<Line>::empty());
    assert(chunks.deep_view() =~= Seq::<Seq<Line>>::empty().map_values(
        |group: Seq<Line>| chunk_of(group),
    ));
    while i < lines.len()
        invariant
            i <= lines.len(),
            all == lines.deep_view(),
            chunks.deep_view() == group_lines(all.take(i as int), budget as nat).done.map_values(
                |group: Seq<Line>| chunk_of(group),
            ),
            current_tokens == tokens_of(group_lines(all.take(i as int), budget as nat).open),
            current_tokens <= budget,
            chunk.content@ == text_of(group_lines(all.take(i as int), budget as nat).open),
            (chunk.content@.len() == 0) == (group_lines(
                all.take(i as int),
                budget as nat,
            ).open.len() == 0),
            chunk.content@.len() > 0 ==> chunk@ == chunk_of(
                group_lines(all.take(i as int), budget as nat).open,
            ),
        decreases lines.len() - i,
    {
        let line = &lines[i];
        let ghost before = group_lines(all.take(i as int), budget as nat);
        let ghost grown = before.open.push(line@);
        proof {
            assert(all.take(i + 1).drop_last() =~= all.take(i as int));
            assert(all.take(i + 1).last() == line@);
            lemma_push_line(before.open, line@);
        }
        if chunk.content.as_str().is_empty() {
            chunk.page = line.page;
        }
        chunk.content.append(line.text.as_str());
        chunk.content.push('\n');
        assert(chunk.content@ =~= text_of(grown));
        assert(chunk@ == chunk_of(grown));
        if line.tokens > budget - current_tokens {
            let ghost shown = chunks.deep_view();
            chunks.push(chunk);
            assert(chunks.deep_view() =~= shown.push(chunk_of(grown)));
            assert(before.done.push(grown).map_values(|group: Seq<Line>| chunk_of(group))
                =~= before.done.map_values(|group: Seq<Line>| chunk_of(group)).push(
                chunk_of(grown),
            ));
            chunk = UnLearnedChunk::default();
            current_tokens = 0;
        } else {
            current_tokens = current_tokens + line.tokens;
        }
        i += 1;
    }
    assert(all.take(lines.len() as int) =~= all);
    if !chunk.content.as_str().is_empty() {
        let ghost fin = group_lines(all, budget as nat);
        let ghost shown = chunks.deep_view();
        chunks.push(chunk);
        assert(chunks.deep_view() =~= shown.push(chunk_of(fin.open)));
        assert(fin.done.push(fin.open).map_values(|group: Seq<Line>| chunk_of(group))
            =~= fin.done.map_values(|group: Seq<Line>| chunk_of(group)).push(chunk_of(fin.open)));
    }
    chunks
}

/// A line of a unit as the chunker counts it: with a line feed after it, and with the
/// token count of the line and its line feed together.
pub open spec fn counted(line: Seq<char>, page: nat) -> Line {
    Line { text: line.push('\n'), page, tokens: cl100k_token_count(line.push('\n')) }
}

/// The counted lines of one unit, which is number `page` of its document.
pub open spec fn lines_of_unit(unit: Seq<char>, page: nat) -> Seq<Line> {
    split_lines(unit).map_values(|line: Seq<char>| counted(line, page))
}

/// The counted lines of all units in order; units are numbered from 1.
pub open spec fn lines_of(units: Seq<Seq<char>>) -> Seq<Line>
    decreases units.len(),
{
    if units.len() == 0 {
        Seq::empty()
    } else {
        lines_of(units.drop_last()) + lines_of_unit(units.last(), units.len())
    }
}

/// A line whose tokens can be counted: with its line feed it is no longer than the
/// longest text that is handed to the tokenizer.
pub open spec fn countable_line(line: Seq<char>) -> bool {
    line.len() < MAX_TOKENIZED_CHARS
}

/// A unit whose lines can all be counted.
pub open spec fn countable_unit(unit: Seq<char>) -> bool {
    forall|k: int|
        0 <= k < split_lines(unit).len() ==> countable_line(#[trigger] split_lines(unit)[k])
}

/// Units whose lines can all be counted.
pub open spec fn countable(units: Seq<Seq<char>>) -> bool {
    forall|i: int| 0 <= i < units.len() ==> countable_unit(#[trigger] units[i])
}

/// Splits one unit into lines and counts the tokens of each. There is no count where a
/// line of the unit is too long to be counted; the tokenizer is not asked then.
pub fn count_unit(unit: &str, page: usize) -> (counted_lines: Option<Vec<CountedLine>>)
    ensures
        counted_lines is Some <==> countable_unit(unit@),
        counted_lines matches Some(list) ==> list.deep_view() == lines_of_unit(
            unit@,
            page as nat,
        ),
{
    let unit_lines = lines(unit);
    let mut counted_lines: Vec<CountedLine> = Vec::new();
    let mut k: usize = 0;
    while k < unit_lines.len()
        invariant
            k <= unit_lines.len(),
            unit_lines.deep_view() == split_lines(unit@),
            counted_lines.deep_view() == lines_of_unit(unit@, page as nat).take(k as int),
            forall|j: int| 0 <= j < k ==> countable_line(#[trigger] split_lines(unit@)[j]),
        decreases unit_lines.len() - k,
    {
        let text = unit_lines[k].clone();
        assert(text@ == unit_lines.deep_view()[k as int]);
        if text.as_str().unicode_len() >= MAX_TOKENIZED_CHARS {
            assert(!countable_line(split_lines(unit@)[k as int]));
            return None;
        }
        let mut terminated = text.clone();
        terminated.push('\n');
        let tokens = count_tokens(terminated.as_str());
        let ghost shown = counted_lines.deep_view();
        counted_lines.push(CountedLine { text, page, tokens });
        assert(counted_lines.deep_view() =~= shown.push(counted(split_lines(unit@)[k as int], page as nat)));
        assert(counted_lines.deep_view() =~= lines_of_unit(unit@, page as nat).take(k + 1));
        k += 1;
    }
    assert(counted_lines.deep_view() =~= lines_of_unit(unit@, page as nat));
    Some(counted_lines)
}

/// Cuts the text of a document, given unit by unit (page by page), into chunks. Each
/// line gets a line feed after it. A chunk runs on over the end of a unit and is closed
/// only after the line that takes it over `chunk_tokens` tokens; its page is the number
/// of the unit in which its first line stands. There are no chunks where a line of the
/// document is too long to be counted.
pub fn chunk(units: Vec<String>, chunk_tokens: usize) -> (chunks: Option<Vec<UnLearnedChunk>>)
    ensures
        chunks is Some <==> countable(units.deep_view()),
        chunks matches Some(list) ==> {
            &&& list.deep_view() == packed(lines_of(units.deep_view()), chunk_tokens as nat)
            &&& contents_of(list.deep_view()) == concat(normalized_units(units.deep_view()))
            &&& within_budget(
                groups(lines_of(units.deep_view()), chunk_tokens as nat),
                chunk_tokens as nat,
            )
            &&& lines_of(units.deep_view()).len() > 0 && tokens_of(lines_of(units.deep_view()))
                <= chunk_tokens ==> list.deep_view() == seq![
                chunk_of(lines_of(units.deep_view())),
            ]
        },
{
    proof {
        lemma_chunks_keep_text(units.deep_view(), chunk_tokens as nat);
    }
    let mut all_lines: Vec<CountedLine> = Vec::new();
    let mut page: usize = 0;
    let ghost texts = units.deep_view();
    assert(texts.take(0) =~= Seq::<Seq<char>>::empty());
    while page < units.len()
        invariant
            page <= units.len(),
            texts == units.deep_view(),
            all_lines.deep_view() == lines_of(texts.take(page as int)),
            forall|i: int| 0 <= i < page ==> countable_unit(#[trigger] texts[i]),
        decreases units.len() - page,
    {
        proof {
            assert(texts.take(page + 1).drop_last() =~= texts.take(page as int));
            assert(texts.take(page + 1).last() == units[page as int]@);
            assert(texts[page as int] == units[page as int]@);
        }
        match count_unit(units[page].as_str(), page + 1) {
            Some(unit_lines) => {
                let mut unit_lines = unit_lines;
                let ghost shown = all_lines.deep_view();
                let ghost added = unit_lines.deep_view();
                all_lines.append(&mut unit_lines);
                assert(all_lines.deep_view() =~= shown + added);
            },
            None => {
                assert(!countable_unit(texts[page as int]));
                return None;
            },
        }
        page += 1;
    }
    assert(texts.take(units.len() as int) =~= texts);
    Some(pack_lines(&all_lines, chunk_tokens))
}

/// The contents of `chunks`, one after the other.
pub open spec fn contents_of(chunks: Seq<ChunkView>) -> Seq<char>
    decreases chunks.len(),
{
    if chunks.len() == 0 {
        Seq::empty()
    } else {
        contents_of(chunks.drop_last()) + chunks.last().content
    }
}

/// `lines`, each with a line feed after it, one after the other.
pub open spec fn with_line_feeds(lines: Seq<Seq<char>>) -> Seq<char>
    decreases lines.len(),
{
    if lines.len() == 0 {
        Seq::empty()
    } else {
        with_line_feeds(lines.drop_last()) + lines.last().push('\n')
    }
}

/// `units`, one after the other.
pub open spec fn concat(units: Seq<Seq<char>>) -> Seq<char>
    decreases units.len(),
{
    if units.len() == 0 {
        Seq::empty()
    } else {
        concat(units.drop_last()) + units.last()
    }
}

/// A text in which every line ends with a single line feed: it is empty or ends with a
/// line feed, and no carriage return stands before a line feed.
pub open spec fn line_feed_terminated(text: Seq<char>) -> bool {
    &&& text.len() == 0 || text.last() == '\n'
    &&& forall|i: int| 0 <= i < text.len() - 1 ==> !(text[i] == '\r' && #[trigger] text[i + 1] == '\n')
}

proof fn lemma_push_chunk(chunks: Seq<ChunkView>, chunk: ChunkView)
    ensures
        contents_of(chunks.push(chunk)) == contents_of(chunks) + chunk.content,
{
    assert(chunks.push(chunk).drop_last() =~= chunks);
}

proof fn lemma_grouping_keeps_text(lines: Seq<Line>, budget: nat)
    ensures
        contents_of(
            group_lines(lines, budget).done.map_values(|group: Seq<Line>| chunk_of(group)),
        ) + text_of(group_lines(lines, budget).open) == text_of(lines),
    decreases lines.len(),
{
    let chunk_of_group = |group: Seq<Line>| chunk_of(group);
    if lines.len() == 0 {
        assert(group_lines(lines, budget).done.map_values(chunk_of_group) =~= Seq::<
            ChunkView,
        >::empty());
    } else {
        let before = group_lines(lines.drop_last(), budget);
        let grown = before.open.push(lines.last());
        lemma_grouping_keeps_text(lines.drop_last(), budget);
        lemma_push_line(before.open, lines.last());
        if tokens_of(grown) > budget {
            assert(before.done.push(grown).map_values(chunk_of_group) =~= before.done.map_values(
                chunk_of_group,
            ).push(chunk_of(grown)));
            lemma_push_chunk(before.done.map_values(chunk_of_group), chunk_of(grown));
            assert(text_of(Seq::<Line>::empty()) =~= Seq::<char>::empty());
            assert(contents_of(before.done.map_values(chunk_of_group)) + text_of(grown) + Seq::<
                char,
            >::empty() =~= contents_of(before.done.map_values(chunk_of_group)) + text_of(
                before.open,
            ) + lines.last().text);
        } else {
            assert(contents_of(before.done.map_values(chunk_of_group)) + (text_of(before.open)
                + lines.last().text) =~= contents_of(before.done.map_values(chunk_of_group))
                + text_of(before.open) + lines.last().text);
        }
    }
}

/// Packing loses nothing: the contents of the chunks, one after the other, are the texts
/// of the lines, one after the other.
pub proof fn lemma_packing_keeps_text(lines: Seq<Line>, budget: nat)
    ensures
        contents_of(packed(lines, budget)) == text_of(lines),
{
    let chunk_of_group = |group: Seq<Line>| chunk_of(group);
    let grouping = group_lines(lines, budget);
    lemma_grouping_keeps_text(lines, budget);
    if grouping.open.len() == 0 {
        assert(text_of(grouping.open) =~= Seq::<char>::empty());
        assert(contents_of(grouping.done.map_values(chunk_of_group)) + Seq::<char>::empty()
            =~= contents_of(grouping.done.map_values(chunk_of_group)));
    } else {
        assert(grouping.done.push(grouping.open).map_values(chunk_of_group)
            =~= grouping.done.map_values(chunk_of_group).push(chunk_of(grouping.open)));
        lemma_push_chunk(grouping.done.map_values(chunk_of_group), chunk_of(grouping.open));
    }
}

proof fn lemma_grouping_bounds(lines: Seq<Line>, budget: nat)
    ensures
        tokens_of(group_lines(lines, budget).open) <= budget,
        forall|k: int|
            0 <= k < group_lines(lines, budget).done.len() ==> {
                let group = #[trigger] group_lines(lines, budget).done[k];
                &&& group.len() > 0
                &&& tokens_of(group.drop_last()) <= budget
                &&& tokens_of(group) > budget
            },
    decreases lines.len(),
{
    if lines.len() > 0 {
        let before = group_lines(lines.drop_last(), budget);
        let grown = before.open.push(lines.last());
        lemma_grouping_bounds(lines.drop_last(), budget);
        assert(grown.drop_last() =~= before.open);
    }
}

/// The token bound on the groups of lines that make the chunks. Every group holds at
/// least one line. Without its last line it is within the budget: only the line that
/// closed it took it over. Every group but the last is over the budget with that line,
/// which is why it was closed there.
pub open spec fn within_budget(groups: Seq<Seq<Line>>, budget: nat) -> bool {
    forall|k: int|
        0 <= k < groups.len() ==> {
            let group = #[trigger] groups[k];
            &&& group.len() > 0
            &&& tokens_of(group.drop_last()) <= budget
            &&& k + 1 < groups.len() ==> tokens_of(group) > budget
        }
}

/// The token bound holds of the groups into which lines fall.
pub proof fn lemma_token_bound(lines: Seq<Line>, budget: nat)
    ensures
        within_budget(groups(lines, budget), budget),
{
    lemma_grouping_bounds(lines, budget);
    let grouping = group_lines(lines, budget);
    if grouping.open.len() > 0 {
        lemma_tokens_grow(grouping.open, grouping.open.len() - 1);
        assert(grouping.open.take(grouping.open.len() - 1) =~= grouping.open.drop_last());
    }
}

/// The token count of a prefix of `lines` is at most that of `lines`.
pub proof fn lemma_tokens_grow(lines: Seq<Line>, n: int)
    requires
        0 <= n <= lines.len(),
    ensures
        tokens_of(lines.take(n)) <= tokens_of(lines),
    decreases lines.len(),
{
    if n == lines.len() {
        assert(lines.take(n) =~= lines);
    } else {
        lemma_tokens_grow(lines.drop_last(), n);
        assert(lines.drop_last().take(n) =~= lines.take(n));
    }
}

proof fn lemma_grouping_carries(lines: Seq<Line>, budget: nat)
    requires
        tokens_of(lines) <= budget,
    ensures
        group_lines(lines, budget) == (Grouping { done: Seq::empty(), open: lines }),
    decreases lines.len(),
{
    if lines.len() == 0 {
        assert(lines =~= Seq::<Line>::empty());
    } else {
        lemma_grouping_carries(lines.drop_last(), budget);
        assert(lines.drop_last().push(lines.last()) =~= lines);
    }
}

/// Carry-over. Lines that are within the budget together make one chunk, however many
/// units they come from; its page is that of the first line.
pub proof fn lemma_carry_over(lines: Seq<Line>, budget: nat)
    requires
        lines.len() > 0,
        tokens_of(lines) <= budget,
    ensures
        groups(lines, budget) == seq![lines],
        packed(lines, budget) == seq![chunk_of(lines)],
        packed(lines, budget)[0].page == lines[0].page,
{
    lemma_grouping_carries(lines, budget);
    assert(groups(lines, budget) =~= seq![lines]);
    assert(packed(lines, budget) =~= seq![chunk_of(lines)]);
}

proof fn lemma_unit_text(unit: Seq<char>, page: nat)
    ensures
        text_of(lines_of_unit(unit, page)) == with_line_feeds(split_lines(unit)),
{
    lemma_mapped_text(split_lines(unit), page);
}

proof fn lemma_mapped_text(lines: Seq<Seq<char>>, page: nat)
    ensures
        text_of(lines.map_values(|line: Seq<char>| counted(line, page))) == with_line_feeds(lines),
    decreases lines.len(),
{
    let count = |line: Seq<char>| counted(line, page);
    if lines.len() == 0 {
        assert(lines.map_values(count) =~= Seq::<Line>::empty());
    } else {
        lemma_mapped_text(lines.drop_last(), page);
        assert(lines.map_values(count).drop_last() =~= lines.drop_last().map_values(count));
    }
}

proof fn lemma_text_of_both(first: Seq<Line>, second: Seq<Line>)
    ensures
        text_of(first + second) == text_of(first) + text_of(second),
    decreases second.len(),
{
    if second.len() == 0 {
        assert(first + second =~= first);
        assert(text_of(first) + Seq::<char>::empty() =~= text_of(first));
    } else {
        lemma_text_of_both(first, second.drop_last());
        assert((first + second).drop_last() =~= first + second.drop_last());
        assert(text_of(first) + (text_of(second.drop_last()) + second.last().text) =~= text_of(
            first,
        ) + text_of(second.drop_last()) + second.last().text);
    }
}

/// The lines of a unit, each with a line feed after it: the unit itself, where every
/// line of it ends with a single line feed.
pub open spec fn normalized(unit: Seq<char>) -> Seq<char> {
    with_line_feeds(split_lines(unit))
}

/// `units` with each unit normalized.
pub open spec fn normalized_units(units: Seq<Seq<char>>) -> Seq<Seq<char>> {
    units.map_values(|unit: Seq<char>| normalized(unit))
}

proof fn lemma_lines_text(units: Seq<Seq<char>>)
    ensures
        text_of(lines_of(units)) == concat(normalized_units(units)),
    decreases units.len(),
{
    if units.len() == 0 {
        assert(normalized_units(units) =~= Seq::<Seq<char>>::empty());
    } else {
        lemma_lines_text(units.drop_last());
        lemma_text_of_both(lines_of(units.drop_last()), lines_of_unit(units.last(), units.len()));
        lemma_unit_text(units.last(), units.len());
        assert(normalized_units(units).drop_last() =~= normalized_units(units.drop_last()));
    }
}

/// Chunking keeps the text. The contents of the chunks of `units`, one after the other,
/// are the units one after the other, each line ending with a single line feed.
pub proof fn lemma_chunks_keep_text(units: Seq<Seq<char>>, budget: nat)
    ensures
        contents_of(packed(lines_of(units), budget)) == concat(normalized_units(units)),
{
    lemma_packing_keeps_text(lines_of(units), budget);
    lemma_lines_text(units);
}

proof fn lemma_scan_keeps_text(text: Seq<char>)
    requires
        forall|i: int| 0 <= i < text.len() - 1 ==> !(text[i] == '\r' && #[trigger] text[i + 1] == '\n'),
    ensures
        with_line_feeds(crate::text::closed_lines(text)) + crate::text::open_line(text) == text,
        crate::text::open_line(text).len() > 0 ==> crate::text::open_line(text).last()
            == text.last(),
        text.len() > 0 && text.last() != '\n' ==> crate::text::open_line(text).len() > 0,
    decreases text.len(),
{
    let closed = crate::text::closed_lines(text);
    let open = crate::text::open_line(text);
    if text.len() == 0 {
        assert(with_line_feeds(closed) + open =~= text);
    } else {
        let shorter = text.drop_last();
        assert forall|i: int| 0 <= i < shorter.len() - 1 implies !(shorter[i] == '\r'
            && #[trigger] shorter[i + 1] == '\n') by {
            assert(shorter[i] == text[i]);
            assert(shorter[i + 1] == text[i + 1]);
        }
        lemma_scan_keeps_text(shorter);
        let closed_before = crate::text::closed_lines(shorter);
        let open_before = crate::text::open_line(shorter);
        if text.last() == '\n' {
            if open_before.len() > 0 && open_before.last() == '\r' {
                assert(text[text.len() - 2] == '\r');
                assert(text[(text.len() - 2) + 1] == '\n');
                assert(false);
            }
            assert(crate::text::strip_cr(open_before) == open_before);
            assert(closed.drop_last() =~= closed_before);
            assert(with_line_feeds(closed) + open =~= (with_line_feeds(closed_before)
                + open_before).push('\n'));
            assert(shorter.push('\n') =~= text);
        } else {
            assert(with_line_feeds(closed) + open =~= (with_line_feeds(closed_before)
                + open_before).push(text.last()));
            assert(shorter.push(text.last()) =~= text);
        }
    }
}

/// A unit in which every line ends with a single line feed is its own normal form.
pub proof fn lemma_normalized_is_identity(unit: Seq<char>)
    requires
        line_feed_terminated(unit),
    ensures
        normalized(unit) == unit,
{
    lemma_scan_keeps_text(unit);
    assert(with_line_feeds(crate::text::closed_lines(unit)) + Seq::<char>::empty()
        =~= with_line_feeds(crate::text::closed_lines(unit)));
}

/// The lossless round trip. Where every line of every unit ends with a single line feed,
/// the contents of the chunks, one after the other, are the units one after the other.
pub proof fn lemma_chunks_lossless(units: Seq<Seq<char>>, budget: nat)
    requires
        forall|i: int| 0 <= i < units.len() ==> line_feed_terminated(#[trigger] units[i]),
    ensures
        contents_of(packed(lines_of(units), budget)) == concat(units),
{
    lemma_chunks_keep_text(units, budget);
    assert forall|i: int| 0 <= i < units.len() implies #[trigger] normalized_units(units)[i]
        == units[i] by {
        lemma_normalized_is_identity(units[i]);
    }
    assert(normalized_units(units) =~= units);
}

} // verus!
