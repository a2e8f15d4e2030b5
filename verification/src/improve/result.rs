//! The result block that a run ends with, and the commit message made of it.

use vstd::prelude::*;

use crate::letters::{has_prefix_letters, same_letters, same_letters_as, starts_with_letters};
use crate::path::{file_name, parent_name, path_file_name, path_parent_name};
use crate::text::{
    chars_of, has_prefix, join, joined_texts, last_position, lemma_texts_push, lines, lines_of, push_all, push_text,
    rfind, same_text, split, split_char, starts_with, string_of, tail, texts, trim, trim_of, trimmed, trimmed_of, views,
};

verus! {

/// What a run did.
#[derive(Debug, Clone, Copy, PartialEq, Eq, Structural)]
pub enum Action {
    Edit,
    Create,
    Revert,
    Nothing,
}

impl Action {
    /// The word for an action.
    pub open spec fn word(self) -> Seq<char> {
        match self {
            Action::Edit => "edit"@,
            Action::Create => "create"@,
            Action::Revert => "revert"@,
            Action::Nothing => "none"@,
        }
    }

    /// The word for an action.
    pub fn as_str(self) -> (r: &'static str)
        ensures
            r@ == self.word(),
    {
        match self {
            Action::Edit => "edit",
            Action::Create => "create",
            Action::Revert => "revert",
            Action::Nothing => "none",
        }
    }
}

/// What a run says that it did, to which files, why, and on what evidence.
#[derive(Debug, Clone, PartialEq, Eq)]
pub struct ImproveResult {
    pub action: Action,
    pub files: Vec<String>,
    pub rationale: String,
    pub evidence: String,
}

/// What a result says.
pub ghost struct ResultView {
    pub action: Action,
    pub files: Seq<Seq<char>>,
    pub rationale: Seq<char>,
    pub evidence: Seq<char>,
}

impl View for ImproveResult {
    type V = ResultView;

    open spec fn view(&self) -> ResultView {
        ResultView {
            action: self.action,
            files: texts(self.files@),
            rationale: self.rationale@,
            evidence: self.evidence@,
        }
    }
}

// --- reading the block ---

/// The action that a word names, in any case.
pub open spec fn action_of(word: Seq<char>) -> Option<Action> {
    if same_letters(word, "edit"@) {
        Some(Action::Edit)
    } else if same_letters(word, "create"@) {
        Some(Action::Create)
    } else if same_letters(word, "revert"@) {
        Some(Action::Revert)
    } else if same_letters(word, "none"@) {
        Some(Action::Nothing)
    } else {
        None
    }
}

/// A word's action reads back as that action.
pub proof fn law_action_word_reads_back(a: Action)
    ensures
        action_of(a.word()) == Some(a),
{
    reveal_strlit("edit");
    reveal_strlit("create");
    reveal_strlit("revert");
    reveal_strlit("none");
    let w = crate::letters::ascii_lower_all(a.word());
    assert(w =~= a.word());
    assert(crate::letters::ascii_lower_all("edit"@)[0] == 'e');
    assert(crate::letters::ascii_lower_all("create"@)[0] == 'c');
    assert(crate::letters::ascii_lower_all("revert"@)[0] == 'r');
    assert(crate::letters::ascii_lower_all("none"@)[0] == 'n');
}

/// The file that a piece of the list names: without white space and backticks
/// around it; `None` for nothing and for the word `none`.
pub open spec fn listed_file(part: Seq<char>) -> Option<Seq<char>> {
    let p = trim_of(trim(part), '`', '`');
    if p.len() == 0 || same_letters(p, "none"@) {
        None
    } else {
        Some(p)
    }
}

/// The files that the pieces of a list name.
pub open spec fn listed_files(parts: Seq<Seq<char>>) -> Seq<Seq<char>>
    decreases parts.len(),
{
    if parts.len() == 0 {
        Seq::empty()
    } else {
        match listed_file(parts.last()) {
            Some(f) => listed_files(parts.drop_last()).push(f),
            None => listed_files(parts.drop_last()),
        }
    }
}

/// The field that a continuation line belongs to.
#[derive(Debug, Clone, Copy, PartialEq, Eq, Structural)]
pub enum Field {
    Nothing,
    Rationale,
    Evidence,
}

/// What has been read of a block.
pub ghost struct BlockReading {
    pub refused: bool,
    pub action: Option<Action>,
    pub files: Seq<Seq<char>>,
    pub rationale: Seq<char>,
    pub evidence: Seq<char>,
    pub field: Field,
}

/// A text with a continuation line.
pub open spec fn continued(text: Seq<char>, line: Seq<char>) -> Seq<char> {
    if text.len() == 0 {
        line
    } else {
        text + " "@ + line
    }
}

/// One more line of a block. Blank lines and fences do not count; a line that
/// begins with none of the labels continues the rationale or the evidence.
pub open spec fn read_block_line(st: BlockReading, raw: Seq<char>) -> BlockReading {
    let line = trim(raw);
    if line.len() == 0 || starts_with(line, "```"@) {
        st
    } else if starts_with_letters(line, "action:"@) {
        let a = action_of(trim(line.skip(7)));
        BlockReading { refused: st.refused || a is None, action: a, field: Field::Nothing, ..st }
    } else if starts_with_letters(line, "files:"@) {
        BlockReading {
            files: st.files + listed_files(split(line.skip(6), ',')),
            field: Field::Nothing,
            ..st
        }
    } else if starts_with_letters(line, "rationale:"@) {
        BlockReading { rationale: trim(line.skip(10)), field: Field::Rationale, ..st }
    } else if starts_with_letters(line, "evidence:"@) {
        BlockReading { evidence: trim(line.skip(9)), field: Field::Evidence, ..st }
    } else if st.field == Field::Rationale {
        BlockReading { rationale: continued(st.rationale, line), ..st }
    } else if st.field == Field::Evidence {
        BlockReading { evidence: continued(st.evidence, line), ..st }
    } else {
        st
    }
}

/// The lines of a block, read one after the other.
pub open spec fn read_block(ls: Seq<Seq<char>>) -> BlockReading
    decreases ls.len(),
{
    if ls.len() == 0 {
        BlockReading {
            refused: false,
            action: None,
            files: Seq::empty(),
            rationale: Seq::empty(),
            evidence: Seq::empty(),
            field: Field::Nothing,
        }
    } else {
        read_block_line(read_block(ls.drop_last()), ls.last())
    }
}

/// What a run's output says it did: what stands behind the last marker. `None`
/// without a marker, without an action, and with an action that is not known.
pub open spec fn result_of(output: Seq<char>) -> Option<ResultView> {
    let k = rfind(output, "IMPROVE-RESULT"@);
    if k < 0 {
        None
    } else {
        let st = read_block(lines(output.skip(k + 14)));
        if st.refused || st.action is None {
            None
        } else {
            Some(
                ResultView { action: st.action->0, files: st.files, rationale: st.rationale, evidence: st.evidence },
            )
        }
    }
}

/// A reading that was refused stays refused.
proof fn lemma_refused_stays(ls: Seq<Seq<char>>, n: int)
    requires
        0 <= n <= ls.len(),
        read_block(ls.take(n)).refused,
    ensures
        read_block(ls).refused,
    decreases ls.len() - n,
{
    if n == ls.len() {
        assert(ls.take(n) =~= ls);
    } else {
        assert(ls.take(n + 1).drop_last() =~= ls.take(n));
        lemma_refused_stays(ls, n + 1);
    }
}

fn read_action(word: &[char]) -> (r: Option<Action>)
    ensures
        r == action_of(word@),
{
    if same_letters_as(word, "edit") {
        Some(Action::Edit)
    } else if same_letters_as(word, "create") {
        Some(Action::Create)
    } else if same_letters_as(word, "revert") {
        Some(Action::Revert)
    } else if same_letters_as(word, "none") {
        Some(Action::Nothing)
    } else {
        None
    }
}

fn add_files(files: &mut Vec<String>, list: &[char])
    ensures
        texts(final(files)@) == texts(old(files)@) + listed_files(split(list@, ',')),
{
    let ghost start = texts(files@);
    let parts = split_char(list, ',');
    let ghost pv = views(parts@);
    let mut i: usize = 0;
    assert(texts(files@) =~= start + listed_files(pv.take(0)));
    while i < parts.len()
        invariant
            i <= parts@.len(),
            pv == views(parts@),
            texts(files@) == start + listed_files(pv.take(i as int)),
        decreases parts@.len() - i,
    {
        assert(pv.take(i + 1).drop_last() =~= pv.take(i as int));
        let p = trimmed_of(trimmed(parts[i]), '`', '`');
        if p.len() > 0 && !same_letters_as(p, "none") {
            let f = string_of(p);
            proof {
                lemma_texts_push(files@, f);
            }
            files.push(f);
        }
        i = i + 1;
        assert(texts(files@) =~= start + listed_files(pv.take(i as int)));
    }
    assert(pv.take(i as int) =~= pv);
}

fn continue_text(text: &mut Vec<char>, line: &[char])
    ensures
        final(text)@ == continued(old(text)@, line@),
{
    let ghost start = text@;
    if text.len() > 0 {
        push_text(text, " ");
    }
    push_all(text, line);
    assert(text@ =~= continued(start, line@));
}

/// Reads the block at the end of a run's output.
pub fn parse_result(output: &str) -> (r: Option<ImproveResult>)
    ensures
        r is Some == result_of(output@) is Some,
        r is Some ==> (r->0)@ == result_of(output@)->0,
{
    let oc = chars_of(output);
    let end: usize = oc.len();
    let at: usize = match last_position(oc.as_slice(), "IMPROVE-RESULT") {
        Some(k) => k,
        None => {
            return None;
        },
    };
    proof {
        reveal_strlit("IMPROVE-RESULT");
        reveal_strlit("action:");
        reveal_strlit("files:");
        reveal_strlit("rationale:");
        reveal_strlit("evidence:");
    }
    assert(at + 14 <= end);
    let ls = lines_of(tail(oc.as_slice(), at + 14));
    let ghost lv = views(ls@);
    let mut action: Option<Action> = None;
    let mut files: Vec<String> = Vec::new();
    let mut rationale: Vec<char> = Vec::new();
    let mut evidence: Vec<char> = Vec::new();
    let mut field: Field = Field::Nothing;
    let mut i: usize = 0;
    proof {
        let st = read_block(lv.take(0));
        assert(texts(files@) =~= st.files);
        assert(rationale@ =~= st.rationale);
        assert(evidence@ =~= st.evidence);
    }
    while i < ls.len()
        invariant
            i <= ls@.len(),
            lv == views(ls@),
            rfind(output@, "IMPROVE-RESULT"@) == at,
            lv == lines(output@.skip(at + 14)),
            "action:"@.len() == 7,
            "files:"@.len() == 6,
            "rationale:"@.len() == 10,
            "evidence:"@.len() == 9,
            ({
                let st = read_block(lv.take(i as int));
                &&& !st.refused
                &&& action == st.action
                &&& texts(files@) == st.files
                &&& rationale@ == st.rationale
                &&& evidence@ == st.evidence
                &&& field == st.field
            }),
        decreases ls@.len() - i,
    {
        assert(lv.take(i + 1).drop_last() =~= lv.take(i as int));
        assert(lv.take(i + 1).last() == ls@[i as int]@);
        let line = trimmed(ls[i]);
        if line.len() == 0 || has_prefix(line, "```") {
        } else if has_prefix_letters(line, "action:") {
            field = Field::Nothing;
            action = read_action(trimmed(tail(line, 7)));
            if action.is_none() {
                proof {
                    lemma_refused_stays(lv, i + 1);
                }
                return None;
            }
        } else if has_prefix_letters(line, "files:") {
            field = Field::Nothing;
            add_files(&mut files, tail(line, 6));
        } else if has_prefix_letters(line, "rationale:") {
            field = Field::Rationale;
            rationale = crate::text::copy_of(trimmed(tail(line, 10)));
        } else if has_prefix_letters(line, "evidence:") {
            field = Field::Evidence;
            evidence = crate::text::copy_of(trimmed(tail(line, 9)));
        } else if field == Field::Rationale {
            continue_text(&mut rationale, line);
        } else if field == Field::Evidence {
            continue_text(&mut evidence, line);
        }
        i = i + 1;
    }
    assert(lv.take(i as int) =~= lv);
    match action {
        Some(a) => Some(
            ImproveResult {
                action: a,
                files,
                rationale: string_of(rationale.as_slice()),
                evidence: string_of(evidence.as_slice()),
            },
        ),
        None => None,
    }
}

// --- the commit message ---

/// How a commit names a file: a skill by its directory; `None` for a path that
/// has no name to give.
pub open spec fn commit_name(path: Seq<char>) -> Option<Seq<char>> {
    match file_name(path) {
        None => None,
        Some(n) => if n == "SKILL.md"@ {
            match parent_name(path) {
                Some(d) => Some(d + "/SKILL.md"@),
                None => None,
            }
        } else {
            Some(n)
        },
    }
}

/// How a commit names the files.
pub open spec fn commit_names(files: Seq<Seq<char>>) -> Seq<Seq<char>>
    decreases files.len(),
{
    if files.len() == 0 {
        Seq::empty()
    } else {
        match commit_name(files.last()) {
            Some(n) => commit_names(files.drop_last()).push(n),
            None => commit_names(files.drop_last()),
        }
    }
}

/// A text without white space around it, or `none` where nothing is left.
pub open spec fn or_none(text: Seq<char>) -> Seq<char> {
    if trim(text).len() == 0 {
        "none"@
    } else {
        trim(text)
    }
}

/// The message of the commit that records a run.
pub open spec fn message_of(r: ResultView) -> Seq<char> {
    "improve: "@ + r.action.word() + (if commit_names(r.files).len() == 0 {
        Seq::empty()
    } else {
        " "@ + join(commit_names(r.files), ", "@)
    }) + "\n\n"@ + trim(r.rationale) + "\n\nevidence: "@ + or_none(r.evidence) + "\n"@
}

fn name_for_commit(path: &str) -> (r: Option<String>)
    ensures
        crate::code_index::rows::opt_view(r) == commit_name(path@),
{
    match path_file_name(path) {
        None => None,
        Some(n) => {
            if !same_text(n.as_str(), "SKILL.md") {
                return Some(n);
            }
            match path_parent_name(path) {
                Some(d) => {
                    let mut s = chars_of(d.as_str());
                    push_text(&mut s, "/SKILL.md");
                    Some(string_of(s.as_slice()))
                },
                None => None,
            }
        },
    }
}

/// Appends a text without white space around it, or `none`.
pub(crate) fn push_or_none(out: &mut Vec<char>, text: &str)
    ensures
        final(out)@ == old(out)@ + or_none(text@),
{
    let tc = chars_of(text);
    let t = trimmed(tc.as_slice());
    if t.len() == 0 {
        push_text(out, "none");
    } else {
        push_all(out, t);
    }
}

/// Writes the message of the commit that records a run.
pub fn commit_message(result: &ImproveResult) -> (r: String)
    ensures
        r@ == message_of(result@),
{
    let ghost fv = texts(result.files@);
    let mut names: Vec<String> = Vec::new();
    let mut i: usize = 0;
    assert(texts(names@) =~= commit_names(fv.take(0)));
    while i < result.files.len()
        invariant
            i <= result.files@.len(),
            fv == texts(result.files@),
            texts(names@) == commit_names(fv.take(i as int)),
        decreases result.files@.len() - i,
    {
        assert(fv.take(i + 1).drop_last() =~= fv.take(i as int));
        if let Some(n) = name_for_commit(result.files[i].as_str()) {
            proof {
                lemma_texts_push(names@, n);
            }
            names.push(n);
        }
        i = i + 1;
    }
    assert(fv.take(i as int) =~= fv);
    assert(texts(names@).len() == names@.len());
    let mut s = chars_of("improve: ");
    push_text(&mut s, result.action.as_str());
    let ghost upto = s@;
    if names.len() > 0 {
        push_text(&mut s, " ");
        let j = joined_texts(names.as_slice(), ", ");
        push_all(&mut s, j.as_slice());
        assert(s@ =~= upto + (" "@ + join(texts(names@), ", "@)));
    } else {
        assert(s@ =~= upto + Seq::<char>::empty());
    }
    push_text(&mut s, "\n\n");
    let rc = chars_of(result.rationale.as_str());
    push_all(&mut s, trimmed(rc.as_slice()));
    push_text(&mut s, "\n\nevidence: ");
    push_or_none(&mut s, result.evidence.as_str());
    push_text(&mut s, "\n");
    string_of(s.as_slice())
}

} // verus!
