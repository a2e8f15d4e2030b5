//! The checks that a changed file has to pass, each for its kind.

use serde_json::Value;
use vstd::prelude::*;

use crate::code_index::rows::opt_view;
use crate::improve::targets::Targets;
use crate::improve::verify::{changes_view, Change, ChangeView};
use crate::json::{content, contents, entry_values, json_member, json_values, member, parse_json, parsed, ref_contents, Json};
use crate::numeral::{dec, push_u64};
use crate::path::{
    file_name, has_extension, is_under, parent_name, path_file_name, path_has_extension, path_parent_name, path_under,
    paths_equal, same_path,
};
use crate::text::{
    char_position, chars_of, contains, find_char, has_prefix, head, holds_text, is_text, lemma_texts_push, lines,
    lines_of, push_all, push_text, same_text, starts_with, string_of, tail, texts, trim, trim_of, trim_start_of,
    trimmed, trimmed_of, trimmed_start_of, views, words, words_of,
};
use crate::textmap::TextMap;

verus! {

// --- frontmatter ---

/// What the values of a map hold.
pub open spec fn values_view(m: Map<Seq<char>, String>) -> Map<Seq<char>, Seq<char>> {
    Map::new(|k: Seq<char>| m.contains_key(k), |k: Seq<char>| m[k]@)
}

/// What has been read of a frontmatter: its entries, and the last key.
pub ghost struct FrontReading {
    pub entries: Map<Seq<char>, Seq<char>>,
    pub last: Option<Seq<char>>,
}

/// A value without the quotes and block marks around it.
pub open spec fn bare_value(v: Seq<char>) -> Seq<char> {
    trim(trim_start_of(trim_of(trim_of(trim(v), '"', '"'), '\'', '\''), '>', '|'))
}

/// Whether a line is an entry: a key at its very beginning, with no blank in
/// it, and a colon.
pub open spec fn is_entry(line: Seq<char>) -> bool {
    let k = find_char(line, ':');
    &&& k < line.len()
    &&& !starts_with(line, " "@)
    &&& trim(line.take(k)).len() > 0
    &&& !line.take(k).contains(' ')
}

/// One more line of a frontmatter: an entry, or the continuation of the last.
pub open spec fn read_front_line(st: FrontReading, line: Seq<char>) -> FrontReading {
    let k = find_char(line, ':');
    if is_entry(line) {
        let key = trim(line.take(k));
        FrontReading { entries: st.entries.insert(key, bare_value(line.skip(k + 1))), last: Some(key) }
    } else if st.last is Some && st.entries.contains_key(st.last->0) && trim(line).len() > 0 {
        let v = st.entries[st.last->0];
        FrontReading {
            entries: st.entries.insert(
                st.last->0,
                if v.len() == 0 {
                    trim(line)
                } else {
                    v + " "@ + trim(line)
                },
            ),
            last: st.last,
        }
    } else {
        st
    }
}

/// The entries up to the closing fence; `None` where there is none.
pub open spec fn front_entries(st: FrontReading, ls: Seq<Seq<char>>) -> Option<Map<Seq<char>, Seq<char>>>
    decreases ls.len(),
{
    if ls.len() == 0 {
        None
    } else if trim(ls[0]) == "---"@ {
        Some(st.entries)
    } else {
        front_entries(read_front_line(st, ls[0]), ls.drop_first())
    }
}

/// The frontmatter of a text: the entries between two fences, the first of
/// which is the text's first line.
pub open spec fn frontmatter(text: Seq<char>) -> Option<Map<Seq<char>, Seq<char>>> {
    let ls = lines(text);
    if ls.len() == 0 || trim(ls[0]) != "---"@ {
        None
    } else {
        front_entries(FrontReading { entries: Map::empty(), last: None }, ls.drop_first())
    }
}

fn has_blank(s: &[char]) -> (r: bool)
    ensures
        r == s@.contains(' '),
{
    proof {
        crate::text::lemma_find_char(s@, ' ');
    }
    char_position(s, ' ') < s.len()
}

/// Reads the frontmatter of a text.
pub fn parse_frontmatter(text: &str) -> (r: Option<TextMap<String>>)
    ensures
        r is Some == frontmatter(text@) is Some,
        r is Some ==> (r->0).wf() && values_view((r->0)@) == frontmatter(text@)->0,
{
    let tc = chars_of(text);
    let ls = lines_of(tc.as_slice());
    let ghost lv = views(ls@);
    assert(lv.len() == ls@.len());
    if ls.len() == 0 {
        return None;
    }
    assert(lv[0] == ls@[0]@);
    if !is_text(trimmed(ls[0]), "---") {
        return None;
    }
    let mut map: TextMap<String> = TextMap::new();
    let mut last: Option<String> = None;
    let mut i: usize = 1;
    assert(values_view(map@) =~= Map::empty());
    assert(lv.skip(1) =~= lv.drop_first());
    while i < ls.len()
        invariant
            1 <= i <= ls@.len(),
            lv == views(ls@),
            lv == lines(text@),
            lv.len() == ls@.len(),
            lv.len() > 0 && trim(lv[0]) == "---"@,
            map.wf(),
            front_entries(FrontReading { entries: values_view(map@), last: opt_view(last) }, lv.skip(i as int))
                == frontmatter(text@),
        decreases ls@.len() - i,
    {
        let line: &[char] = ls[i];
        let ghost st = FrontReading { entries: values_view(map@), last: opt_view(last) };
        assert(lv.skip(i as int)[0] == line@);
        assert(lv.skip(i as int).drop_first() =~= lv.skip(i + 1));
        let t = trimmed(line);
        if is_text(t, "---") {
            return Some(map);
        }
        let k: usize = char_position(line, ':');
        let mut done: bool = false;
        if k < line.len() {
            let name = head(line, k);
            let key = trimmed(name);
            if !has_prefix(line, " ") && key.len() > 0 && !has_blank(name) {
                let v = trimmed(
                    trimmed_start_of(
                        trimmed_of(trimmed_of(trimmed(tail(line, k + 1)), '"', '"'), '\'', '\''),
                        '>',
                        '|',
                    ),
                );
                let ghost before = map@;
                let ks = string_of(key);
                let vs = string_of(v);
                map.insert(ks.clone(), vs);
                last = Some(ks);
                done = true;
                assert(values_view(map@) =~= values_view(before).insert(ks@, vs@));
                assert(read_front_line(st, line@) == (FrontReading {
                    entries: values_view(map@),
                    last: opt_view(last),
                }));
            }
        }
        if !done {
            assert(!is_entry(line@));
            if let Some(key) = &last {
                let known: Option<&String> = map.get(key.as_str());
                if let Some(v) = known {
                    assert(st.entries.contains_key(key@));
                    if t.len() > 0 {
                        let mut joined = chars_of(v.as_str());
                        if joined.len() > 0 {
                            push_text(&mut joined, " ");
                        }
                        push_all(&mut joined, t);
                        let ghost before = map@;
                        let vs = string_of(joined.as_slice());
                        assert(joined@ =~= if v@.len() == 0 {
                            t@
                        } else {
                            v@ + " "@ + t@
                        });
                        map.insert(key.clone(), vs);
                        assert(values_view(map@) =~= values_view(before).insert(key@, vs@));
                    }
                } else {
                    assert(!st.entries.contains_key(key@));
                }
            }
            assert(read_front_line(st, line@) == (FrontReading { entries: values_view(map@), last: opt_view(last) }));
        }
        i = i + 1;
    }
    assert(lv.skip(i as int).len() == 0);
    None
}

// --- skills ---

/// A file and what is wrong with it.
pub open spec fn complaint(path: Seq<char>, what: Seq<char>) -> Seq<char> {
    path + ": "@ + what
}

fn complain(path: &str, what: &str) -> (r: String)
    ensures
        r@ == complaint(path@, what@),
{
    let mut s = chars_of(path);
    push_text(&mut s, ": ");
    push_text(&mut s, what);
    string_of(s.as_slice())
}

/// The name of the directory that a path lies in, empty where it has none.
pub open spec fn dir_name(path: Seq<char>) -> Seq<char> {
    match parent_name(path) {
        Some(d) => d,
        None => Seq::empty(),
    }
}

/// What is wrong with a skill, if anything: it has no frontmatter, or one that
/// does not name the skill as its directory does, or one without a description.
pub open spec fn skill_complaint(path: Seq<char>, text: Seq<char>) -> Option<Seq<char>> {
    match frontmatter(text) {
        None => Some(complaint(path, "missing YAML frontmatter"@)),
        Some(fm) => if !fm.contains_key("name"@) {
            Some(complaint(path, "frontmatter has no name"@))
        } else if fm["name"@] != dir_name(path) {
            Some(
                complaint(path, "frontmatter name '"@ + fm["name"@] + "' != directory '"@ + dir_name(path) + "'"@),
            )
        } else if fm.contains_key("description"@) && trim(fm["description"@]).len() > 0 {
            None
        } else {
            Some(complaint(path, "frontmatter has no description"@))
        },
    }
}

/// The result of a check.
pub open spec fn verdict(complaint: Option<Seq<char>>, r: Result<(), String>) -> bool {
    match r {
        Ok(_) => complaint is None,
        Err(e) => complaint == Some(e@),
    }
}

/// Checks a skill.
pub fn verify_skill_md(path: &str, text: &str) -> (r: Result<(), String>)
    ensures
        verdict(skill_complaint(path@, text@), r),
{
    let fm = match parse_frontmatter(text) {
        Some(m) => m,
        None => {
            return Err(complain(path, "missing YAML frontmatter"));
        },
    };
    let ghost f = frontmatter(text@)->0;
    assert(f.contains_key("name"@) == fm@.contains_key("name"@));
    assert(f.contains_key("description"@) == fm@.contains_key("description"@));
    let dir = match path_parent_name(path) {
        Some(d) => d,
        None => String::new(),
    };
    match fm.get("name") {
        None => {
            return Err(complain(path, "frontmatter has no name"));
        },
        Some(n) => {
            if !same_text(n.as_str(), dir.as_str()) {
                let mut s = chars_of("frontmatter name '");
                push_text(&mut s, n.as_str());
                push_text(&mut s, "' != directory '");
                push_text(&mut s, dir.as_str());
                push_text(&mut s, "'");
                let what = string_of(s.as_slice());
                return Err(complain(path, what.as_str()));
            }
        },
    }
    if let Some(d) = fm.get("description") {
        let dc = chars_of(d.as_str());
        if trimmed(dc.as_slice()).len() > 0 {
            return Ok(());
        }
    }
    Err(complain(path, "frontmatter has no description"))
}

// --- hooks ---

/// What a hook is written in.
#[derive(Debug, Clone, Copy, PartialEq, Eq, Structural)]
pub enum HookKind {
    Bash,
    Python,
    Other,
}

/// Whether a script's first line calls for a shell.
pub open spec fn calls_shell(text: Seq<char>) -> bool {
    starts_with(text, "#!"@) && lines(text).len() > 0 && (contains(lines(text)[0], "bash"@) || contains(
        lines(text)[0],
        "/sh"@,
    ))
}

/// What a hook is written in, by its extension and its first line.
pub open spec fn kind_of_hook(path: Seq<char>, text: Seq<char>) -> HookKind {
    if has_extension(path, "sh"@) || calls_shell(text) {
        HookKind::Bash
    } else if has_extension(path, "py"@) {
        HookKind::Python
    } else {
        HookKind::Other
    }
}

/// What a hook is written in: `bash -n` checks the one, `py_compile` the other.
pub fn hook_kind(path: &str, text: &str) -> (r: HookKind)
    ensures
        r == kind_of_hook(path@, text@),
{
    let tc = chars_of(text);
    let mut shell: bool = path_has_extension(path, "sh");
    if has_prefix(tc.as_slice(), "#!") {
        let ls = lines_of(tc.as_slice());
        assert(views(ls@).len() == ls@.len());
        if ls.len() > 0 {
            assert(views(ls@)[0] == ls@[0]@);
            shell = shell || holds_text(ls[0], "bash") || holds_text(ls[0], "/sh");
        }
    }
    if shell {
        HookKind::Bash
    } else if path_has_extension(path, "py") {
        HookKind::Python
    } else {
        HookKind::Other
    }
}

/// What is wrong with a hook, if anything, given whether its syntax check
/// passed and whether it may be executed. A hook in bash has to be able to end
/// well and must not stop at the first failure.
pub open spec fn hook_complaint(path: Seq<char>, text: Seq<char>, syntax_ok: bool, executable: bool) -> Option<Seq<char>> {
    match kind_of_hook(path, text) {
        HookKind::Other => None,
        HookKind::Python => if syntax_ok {
            None
        } else {
            Some(complaint(path, "python3 -m py_compile failed"@))
        },
        HookKind::Bash => if !syntax_ok {
            Some(complaint(path, "bash -n failed"@))
        } else if !contains(text, "exit 0"@) {
            Some(complaint(path, "hook never reaches `exit 0`"@))
        } else if contains(text, "set -e"@) {
            Some(complaint(path, "hook uses `set -e`"@))
        } else if !executable {
            Some(complaint(path, "hook is not executable"@))
        } else {
            None
        },
    }
}

/// Checks a hook.
pub fn verify_hook_script(path: &str, text: &str, syntax_ok: bool, executable: bool) -> (r: Result<(), String>)
    ensures
        verdict(hook_complaint(path@, text@, syntax_ok, executable), r),
{
    match hook_kind(path, text) {
        HookKind::Other => Ok(()),
        HookKind::Python => if syntax_ok {
            Ok(())
        } else {
            Err(complain(path, "python3 -m py_compile failed"))
        },
        HookKind::Bash => {
            if !syntax_ok {
                return Err(complain(path, "bash -n failed"));
            }
            let tc = chars_of(text);
            if !holds_text(tc.as_slice(), "exit 0") {
                return Err(complain(path, "hook never reaches `exit 0`"));
            }
            if holds_text(tc.as_slice(), "set -e") {
                return Err(complain(path, "hook uses `set -e`"));
            }
            if !executable {
                return Err(complain(path, "hook is not executable"));
            }
            Ok(())
        },
    }
}

// --- settings ---

/// The files under the hooks directory that the words of a command name.
pub open spec fn word_refs(ws: Seq<Seq<char>>, hooks_dir: Seq<char>) -> Seq<Seq<char>>
    decreases ws.len(),
{
    if ws.len() == 0 {
        Seq::empty()
    } else {
        let rest = word_refs(ws.drop_last(), hooks_dir);
        let t = trim_of(ws.last(), '\'', '"');
        if starts_with(t, hooks_dir) {
            rest.push(t)
        } else {
            rest
        }
    }
}

/// The files that a hook's command names.
pub open spec fn hook_refs(h: Json, hooks_dir: Seq<char>) -> Seq<Seq<char>> {
    match member(h, "command"@) {
        Some(Json::Text(cmd)) => word_refs(words(cmd), hooks_dir),
        _ => Seq::empty(),
    }
}

pub open spec fn hooks_refs(hs: Seq<Json>, hooks_dir: Seq<char>) -> Seq<Seq<char>>
    decreases hs.len(),
{
    if hs.len() == 0 {
        Seq::empty()
    } else {
        hooks_refs(hs.drop_last(), hooks_dir) + hook_refs(hs.last(), hooks_dir)
    }
}

/// The files that the commands of a group name.
pub open spec fn group_refs(g: Json, hooks_dir: Seq<char>) -> Seq<Seq<char>> {
    match member(g, "hooks"@) {
        Some(Json::Array(hs)) => hooks_refs(hs, hooks_dir),
        _ => Seq::empty(),
    }
}

pub open spec fn groups_refs(gs: Seq<Json>, hooks_dir: Seq<char>) -> Seq<Seq<char>>
    decreases gs.len(),
{
    if gs.len() == 0 {
        Seq::empty()
    } else {
        groups_refs(gs.drop_last(), hooks_dir) + group_refs(gs.last(), hooks_dir)
    }
}

/// The files that the events' commands name, up to the first event that is no
/// array, and whether there is one.
pub open spec fn event_refs(events: Seq<Json>, hooks_dir: Seq<char>) -> (Seq<Seq<char>>, bool)
    decreases events.len(),
{
    if events.len() == 0 {
        (Seq::empty(), false)
    } else {
        match events[0] {
            Json::Array(gs) => {
                let rest = event_refs(events.drop_first(), hooks_dir);
                (groups_refs(gs, hooks_dir) + rest.0, rest.1)
            },
            _ => (Seq::empty(), true),
        }
    }
}

/// What settings refer to, and what is wrong with their form, if anything.
pub open spec fn settings_scan(path: Seq<char>, j: Json, hooks_dir: Seq<char>) -> (Seq<Seq<char>>, Option<Seq<char>>) {
    if !(j is Object) {
        (Seq::empty(), Some(complaint(path, "top level is not an object"@)))
    } else {
        match member(j, "hooks"@) {
            None => (Seq::empty(), None),
            Some(Json::Object(es)) => {
                let (refs, broken) = event_refs(entry_values(es), hooks_dir);
                (refs, if broken {
                    Some(complaint(path, "hooks.<event> is not an array"@))
                } else {
                    None
                })
            },
            Some(_) => (Seq::empty(), Some(complaint(path, "`hooks` is not an object"@))),
        }
    }
}

/// What settings refer to, and what is wrong with their text or form.
pub open spec fn settings_text_scan(path: Seq<char>, text: Seq<char>, hooks_dir: Seq<char>) -> (
    Seq<Seq<char>>,
    Option<Seq<char>>,
) {
    match parsed(text) {
        Ok(j) => settings_scan(path, j, hooks_dir),
        Err(e) => (Seq::empty(), Some(complaint(path, "invalid JSON: "@ + e))),
    }
}

/// The files under the hooks directory that settings refer to, in order, and
/// what is wrong with the settings behind them, if anything.
#[derive(Debug, Clone)]
pub struct SettingsScan {
    pub refs: Vec<String>,
    pub error: Option<String>,
}

/// What a scan says.
pub open spec fn scan_view(s: SettingsScan) -> (Seq<Seq<char>>, Option<Seq<char>>) {
    (texts(s.refs@), opt_view(s.error))
}

fn add_word_refs(refs: &mut Vec<String>, cmd: &str, hooks_dir: &str)
    ensures
        texts(final(refs)@) == texts(old(refs)@) + word_refs(words(cmd@), hooks_dir@),
{
    let ghost start = texts(refs@);
    let cc = chars_of(cmd);
    let ws = words_of(cc.as_slice());
    let ghost wv = views(ws@);
    let mut i: usize = 0;
    assert(texts(refs@) =~= start + word_refs(wv.take(0), hooks_dir@));
    while i < ws.len()
        invariant
            i <= ws@.len(),
            wv == views(ws@),
            texts(refs@) == start + word_refs(wv.take(i as int), hooks_dir@),
        decreases ws@.len() - i,
    {
        assert(wv.take(i + 1).drop_last() =~= wv.take(i as int));
        let t = trimmed_of(ws[i], '\'', '"');
        if has_prefix(t, hooks_dir) {
            let s = string_of(t);
            proof {
                lemma_texts_push(refs@, s);
            }
            refs.push(s);
        }
        i = i + 1;
        assert(texts(refs@) =~= start + word_refs(wv.take(i as int), hooks_dir@));
    }
    assert(wv.take(i as int) =~= wv);
}

fn add_hook_refs(refs: &mut Vec<String>, h: &Value, hooks_dir: &str)
    ensures
        texts(final(refs)@) == texts(old(refs)@) + hook_refs(content(*h), hooks_dir@),
{
    let ghost start = texts(refs@);
    if let Some(c) = json_member(h, "command") {
        if let Some(cmd) = c.as_str() {
            add_word_refs(refs, cmd, hooks_dir);
            return;
        }
    }
    assert(start + Seq::<Seq<char>>::empty() =~= start);
}

fn add_group_refs(refs: &mut Vec<String>, g: &Value, hooks_dir: &str)
    ensures
        texts(final(refs)@) == texts(old(refs)@) + group_refs(content(*g), hooks_dir@),
{
    let ghost start = texts(refs@);
    if let Some(v) = json_member(g, "hooks") {
        if let Some(hs) = v.as_array() {
            let ghost hv = contents(hs@);
            let mut i: usize = 0;
            assert(texts(refs@) =~= start + hooks_refs(hv.take(0), hooks_dir@));
            while i < hs.len()
                invariant
                    i <= hs@.len(),
                    hv == contents(hs@),
                    texts(refs@) == start + hooks_refs(hv.take(i as int), hooks_dir@),
                decreases hs@.len() - i,
            {
                assert(hv.take(i + 1).drop_last() =~= hv.take(i as int));
                assert(hv.take(i + 1).last() == content(hs@[i as int]));
                add_hook_refs(refs, &hs[i], hooks_dir);
                i = i + 1;
                assert(texts(refs@) =~= start + hooks_refs(hv.take(i as int), hooks_dir@));
            }
            assert(hv.take(i as int) =~= hv);
            return;
        }
    }
    assert(start + Seq::<Seq<char>>::empty() =~= start);
}

fn add_groups_refs(refs: &mut Vec<String>, gs: &Vec<Value>, hooks_dir: &str)
    ensures
        texts(final(refs)@) == texts(old(refs)@) + groups_refs(contents(gs@), hooks_dir@),
{
    let ghost start = texts(refs@);
    let ghost gv = contents(gs@);
    let mut i: usize = 0;
    assert(texts(refs@) =~= start + groups_refs(gv.take(0), hooks_dir@));
    while i < gs.len()
        invariant
            i <= gs@.len(),
            gv == contents(gs@),
            texts(refs@) == start + groups_refs(gv.take(i as int), hooks_dir@),
        decreases gs@.len() - i,
    {
        assert(gv.take(i + 1).drop_last() =~= gv.take(i as int));
        assert(gv.take(i + 1).last() == content(gs@[i as int]));
        add_group_refs(refs, &gs[i], hooks_dir);
        i = i + 1;
        assert(texts(refs@) =~= start + groups_refs(gv.take(i as int), hooks_dir@));
    }
    assert(gv.take(i as int) =~= gv);
}

/// Scans parsed settings.
pub fn scan_settings(path: &str, value: &Value, hooks_dir: &str) -> (r: SettingsScan)
    ensures
        scan_view(r) == settings_scan(path@, content(*value), hooks_dir@),
{
    let mut refs: Vec<String> = Vec::new();
    assert(texts(refs@) =~= Seq::empty());
    if !value.is_object() {
        return SettingsScan { refs, error: Some(complain(path, "top level is not an object")) };
    }
    let hooks: &Value = match json_member(value, "hooks") {
        Some(h) => h,
        None => {
            return SettingsScan { refs, error: None };
        },
    };
    let events: Vec<&Value> = match json_values(hooks) {
        Some(vs) => vs,
        None => {
            return SettingsScan { refs, error: Some(complain(path, "`hooks` is not an object")) };
        },
    };
    let ghost ev = ref_contents(events@);
    let ghost whole = event_refs(ev, hooks_dir@);
    let mut i: usize = 0;
    assert(ev.skip(0) =~= ev);
    assert(texts(refs@) + event_refs(ev, hooks_dir@).0 =~= whole.0);
    while i < events.len()
        invariant
            i <= events@.len(),
            ev == ref_contents(events@),
            whole == event_refs(ev, hooks_dir@),
            texts(refs@) + event_refs(ev.skip(i as int), hooks_dir@).0 == whole.0,
            event_refs(ev.skip(i as int), hooks_dir@).1 == whole.1,
            content(*value) is Object,
            member(content(*value), "hooks"@) matches Some(Json::Object(es)) && entry_values(es) == ev,
        decreases events@.len() - i,
    {
        let ghost rest = ev.skip(i as int);
        let ghost before = texts(refs@);
        assert(rest[0] == content(*events@[i as int]));
        assert(rest.drop_first() =~= ev.skip(i + 1));
        match events[i].as_array() {
            Some(gs) => {
                add_groups_refs(&mut refs, gs, hooks_dir);
                assert(before + (groups_refs(contents(gs@), hooks_dir@) + event_refs(rest.drop_first(), hooks_dir@).0)
                    =~= texts(refs@) + event_refs(rest.drop_first(), hooks_dir@).0);
            },
            None => {
                assert(texts(refs@) + Seq::<Seq<char>>::empty() =~= texts(refs@));
                return SettingsScan { refs, error: Some(complain(path, "hooks.<event> is not an array")) };
            },
        }
        i = i + 1;
    }
    assert(ev.skip(i as int).len() == 0);
    assert(texts(refs@) + Seq::<Seq<char>>::empty() =~= texts(refs@));
    SettingsScan { refs, error: None }
}

/// Scans the text of settings.
pub fn verify_settings_json(path: &str, text: &str, hooks_dir: &str) -> (r: SettingsScan)
    ensures
        scan_view(r) == settings_text_scan(path@, text@, hooks_dir@),
{
    match parse_json(text) {
        Ok(v) => scan_settings(path, &v, hooks_dir),
        Err(e) => {
            let mut s = chars_of("invalid JSON: ");
            push_text(&mut s, e.as_str());
            let what = string_of(s.as_slice());
            let r = SettingsScan { refs: Vec::new(), error: Some(complain(path, what.as_str())) };
            assert(texts(r.refs@) =~= Seq::empty());
            r
        },
    }
}

/// The first file that does not exist.
pub open spec fn first_missing(refs: Seq<Seq<char>>, exists_: Seq<bool>) -> Option<Seq<char>>
    decreases refs.len(),
{
    if refs.len() == 0 {
        None
    } else if !exists_[0] {
        Some(refs[0])
    } else {
        first_missing(refs.drop_first(), exists_.drop_first())
    }
}

/// What is wrong with settings, if anything: a file that they refer to is
/// missing, or what the scan found.
pub open spec fn settings_complaint(
    path: Seq<char>,
    scan: (Seq<Seq<char>>, Option<Seq<char>>),
    exists_: Seq<bool>,
) -> Option<Seq<char>> {
    match first_missing(scan.0, exists_) {
        Some(f) => Some(complaint(path, "hook command references missing file "@ + f)),
        None => scan.1,
    }
}

/// Decides on settings, given of each file that they refer to whether it
/// exists.
pub fn settings_verdict(path: &str, scan: &SettingsScan, present: &Vec<bool>) -> (r: Result<(), String>)
    requires
        present@.len() == scan.refs@.len(),
    ensures
        verdict(settings_complaint(path@, scan_view(*scan), present@), r),
{
    let ghost rv = texts(scan.refs@);
    let mut i: usize = 0;
    assert(rv.skip(0) =~= rv);
    assert(present@.skip(0) =~= present@);
    while i < scan.refs.len()
        invariant
            i <= scan.refs@.len(),
            present@.len() == scan.refs@.len(),
            rv == texts(scan.refs@),
            first_missing(rv.skip(i as int), present@.skip(i as int)) == first_missing(rv, present@),
        decreases scan.refs@.len() - i,
    {
        assert(rv.skip(i as int)[0] == scan.refs@[i as int]@);
        assert(rv.skip(i as int).drop_first() =~= rv.skip(i + 1));
        assert(present@.skip(i as int).drop_first() =~= present@.skip(i + 1));
        if !present[i] {
            let mut s = chars_of("hook command references missing file ");
            push_text(&mut s, scan.refs[i].as_str());
            let what = string_of(s.as_slice());
            return Err(complain(path, what.as_str()));
        }
        i = i + 1;
    }
    match &scan.error {
        Some(e) => Err(e.clone()),
        None => Ok(()),
    }
}

// --- the global rules ---

/// What is wrong with the global rules, if anything: they were emptied, or lost
/// more than a fifth of their bytes.
pub open spec fn rules_complaint(path: Seq<char>, len: int, before: Option<int>) -> Option<Seq<char>> {
    if len == 0 {
        Some(complaint(path, "emptied"@))
    } else if before is Some && len * 5 < before->0 * 4 {
        Some(
            complaint(
                path,
                "shrank from "@ + dec(before->0) + " to "@ + dec(len) + " bytes (more than 20%)"@,
            ),
        )
    } else {
        None
    }
}

/// Checks the global rules, given their length now and before the run.
pub fn verify_claude_md(path: &str, len: u64, before_len: Option<u64>) -> (r: Result<(), String>)
    ensures
        verdict(
            rules_complaint(
                path@,
                len as int,
                match before_len {
                    Some(b) => Some(b as int),
                    None => None,
                },
            ),
            r,
        ),
{
    if len == 0 {
        return Err(complain(path, "emptied"));
    }
    if let Some(before) = before_len {
        if (len as u128) * 5 < (before as u128) * 4 {
            let mut s = chars_of("shrank from ");
            push_u64(&mut s, before);
            push_text(&mut s, " to ");
            push_u64(&mut s, len);
            push_text(&mut s, " bytes (more than 20%)");
            let what = string_of(s.as_slice());
            return Err(complain(path, what.as_str()));
        }
    }
    Ok(())
}

// --- all changes ---

/// Which check a changed file has to pass.
#[derive(Debug, Clone, Copy, PartialEq, Eq, Structural)]
pub enum FileCheck {
    /// None: it is deleted, or a supporting file of a skill.
    Nothing,
    /// The check of the global rules.
    Rules,
    /// The check of the settings.
    Settings,
    /// The check of a hook.
    Hook,
    /// The check of a skill.
    Skill,
}

/// Which check a changed file has to pass.
pub open spec fn check_of(c: ChangeView, t: Targets) -> FileCheck {
    let p = c.file();
    if c is Deleted {
        FileCheck::Nothing
    } else if same_path(p, t.claude_md@) {
        FileCheck::Rules
    } else if same_path(p, t.settings_json@) {
        FileCheck::Settings
    } else if is_under(p, t.hooks_dir@) {
        FileCheck::Hook
    } else if is_under(p, t.skills_dir@) && file_name(p) == Some("SKILL.md"@) {
        FileCheck::Skill
    } else {
        FileCheck::Nothing
    }
}

/// Which check a changed file has to pass.
pub fn check_for(change: &Change, targets: &Targets) -> (r: FileCheck)
    ensures
        r == check_of(change@, *targets),
{
    if let Change::Deleted(_) = change {
        return FileCheck::Nothing;
    }
    let p: &str = change.path();
    if paths_equal(p, targets.claude_md.as_str()) {
        FileCheck::Rules
    } else if paths_equal(p, targets.settings_json.as_str()) {
        FileCheck::Settings
    } else if path_under(p, targets.hooks_dir.as_str()) {
        FileCheck::Hook
    } else if path_under(p, targets.skills_dir.as_str()) {
        match path_file_name(p) {
            Some(n) => if same_text(n.as_str(), "SKILL.md") {
                FileCheck::Skill
            } else {
                FileCheck::Nothing
            },
            None => FileCheck::Nothing,
        }
    } else {
        FileCheck::Nothing
    }
}

/// What is wrong with a change, if anything: it is outside the targets, it
/// deletes one of the two single files, or its check found something.
pub open spec fn change_complaint(c: ChangeView, t: Targets, check: Option<Seq<char>>) -> Option<Seq<char>> {
    let p = c.file();
    if !t.allow(p) {
        Some(complaint(p, "outside write targets"@))
    } else if c is Deleted {
        if same_path(p, t.claude_md@) || same_path(p, t.settings_json@) {
            Some(complaint(p, "deleted"@))
        } else {
            None
        }
    } else if check_of(c, t) == FileCheck::Nothing {
        None
    } else {
        check
    }
}

/// What the checks found.
pub open spec fn found(r: Result<(), String>) -> Option<Seq<char>> {
    match r {
        Ok(_) => None,
        Err(e) => Some(e@),
    }
}

/// The first thing that is wrong with the changes.
pub open spec fn first_complaint(cs: Seq<ChangeView>, t: Targets, checks: Seq<Result<(), String>>) -> Option<Seq<char>>
    decreases cs.len(),
{
    if cs.len() == 0 {
        None
    } else if change_complaint(cs[0], t, found(checks[0])) is Some {
        change_complaint(cs[0], t, found(checks[0]))
    } else {
        first_complaint(cs.drop_first(), t, checks.drop_first())
    }
}

/// Decides on the changes of a run, given for each what the check of its file
/// found. The first one that does not stand refuses them all.
pub fn verify_changes(changes: &Vec<Change>, targets: &Targets, checks: &Vec<Result<(), String>>) -> (r: Result<(), String>)
    requires
        checks@.len() == changes@.len(),
    ensures
        verdict(first_complaint(changes_view(changes@), *targets, checks@), r),
{
    let ghost cv = changes_view(changes@);
    let mut i: usize = 0;
    assert(cv.skip(0) =~= cv);
    assert(checks@.skip(0) =~= checks@);
    while i < changes.len()
        invariant
            i <= changes@.len(),
            checks@.len() == changes@.len(),
            cv == changes_view(changes@),
            first_complaint(cv.skip(i as int), *targets, checks@.skip(i as int)) == first_complaint(
                cv,
                *targets,
                checks@,
            ),
        decreases changes@.len() - i,
    {
        let c: &Change = &changes[i];
        assert(cv.skip(i as int)[0] == c@);
        assert(checks@.skip(i as int)[0] == checks@[i as int]);
        assert(cv.skip(i as int).drop_first() =~= cv.skip(i + 1));
        assert(checks@.skip(i as int).drop_first() =~= checks@.skip(i + 1));
        let p: &str = c.path();
        if !targets.allows(p) {
            return Err(complain(p, "outside write targets"));
        }
        if let Change::Deleted(_) = c {
            if paths_equal(p, targets.claude_md.as_str()) || paths_equal(p, targets.settings_json.as_str()) {
                return Err(complain(p, "deleted"));
            }
        } else if check_for(c, targets) != FileCheck::Nothing {
            if let Err(e) = &checks[i] {
                return Err(e.clone());
            }
        }
        i = i + 1;
    }
    Ok(())
}

/// Where the changes stand, every one of them is inside the targets, and
/// neither of the two single files is gone.
pub proof fn law_standing_changes_stay_inside(cs: Seq<ChangeView>, t: Targets, checks: Seq<Result<(), String>>)
    requires
        checks.len() == cs.len(),
        first_complaint(cs, t, checks) is None,
    ensures
        forall|i: int| 0 <= i < cs.len() ==> t.allow((#[trigger] cs[i]).file()),
        forall|i: int|
            0 <= i < cs.len() && #[trigger] cs[i] is Deleted ==> !same_path(cs[i].file(), t.claude_md@) && !same_path(
                cs[i].file(),
                t.settings_json@,
            ),
    decreases cs.len(),
{
    if cs.len() > 0 {
        let d = cs.drop_first();
        law_standing_changes_stay_inside(d, t, checks.drop_first());
        assert forall|i: int| 0 <= i < cs.len() implies t.allow((#[trigger] cs[i]).file()) by {
            if i > 0 {
                assert(d[i - 1] == cs[i]);
            }
        }
        assert forall|i: int| 0 <= i < cs.len() && #[trigger] cs[i] is Deleted implies !same_path(
            cs[i].file(),
            t.claude_md@,
        ) && !same_path(cs[i].file(), t.settings_json@) by {
            if i > 0 {
                assert(d[i - 1] == cs[i]);
            }
        }
    }
}

} // verus!
