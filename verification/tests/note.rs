use kb::note::{
    build_prompt, classify_note, filed_report, note_source, note_text, parse_classification, parse_note_args, slugify,
    Classification, NoteArgs, NoteLlm,
};

struct FakeNoteLlm {
    reply: String,
}

impl NoteLlm for FakeNoteLlm {
    fn call(&self, _prompt: &str) -> Result<String, String> {
        Ok(self.reply.clone())
    }
}

struct FailingNoteLlm;

impl NoteLlm for FailingNoteLlm {
    fn call(&self, _prompt: &str) -> Result<String, String> {
        Err("timed out".to_string())
    }
}

fn args(v: &[&str]) -> Vec<String> {
    v.iter().map(|s| s.to_string()).collect()
}

#[test]
fn parses_well_formed_single_fact_reply() {
    let out = "TOPIC: helios-rendering\nTITLE: Helios RHI descriptor design\nFACT: Look into bindless descriptors for the Helios Vulkan backend, target 2026-10-07.\n";
    let c = parse_classification(out, "irrelevant raw note");
    assert_eq!(c.topic, "helios-rendering");
    assert_eq!(c.title, "Helios RHI descriptor design");
    assert_eq!(c.facts, vec!["Look into bindless descriptors for the Helios Vulkan backend, target 2026-10-07.".to_string()]);
}

#[test]
fn parses_well_formed_multi_fact_reply() {
    let out = "TOPIC: dotfiles\nTITLE: chezmoi migration notes\nFACT: fact one here.\nFACT: fact two here.\nFACT: fact three here.\n";
    let c = parse_classification(out, "irrelevant");
    assert_eq!(c.topic, "dotfiles");
    assert_eq!(c.title, "chezmoi migration notes");
    assert_eq!(c.facts, vec!["fact one here.".to_string(), "fact two here.".to_string(), "fact three here.".to_string()]);
}

#[test]
fn tolerates_leading_chatter_and_lowercase_prefixes() {
    let out = "Sure, here you go:\ntopic: notes\ntitle: a title\nfact: the one fact\n";
    let c = parse_classification(out, "irrelevant");
    assert_eq!(c.topic, "notes");
    assert_eq!(c.title, "a title");
    assert_eq!(c.facts, vec!["the one fact".to_string()]);
}

#[test]
fn malformed_reply_falls_back_to_raw_note_verbatim() {
    let note = "Remember to look into bindless descriptors for the helios vulkan backend, target next month";
    for bad in ["", "I couldn't parse this note.", "TOPIC: only-a-topic\n", "TOPIC: x\nTITLE: y\n"] {
        let c = parse_classification(bad, note);
        assert_eq!(c.topic, "notes");
        assert_eq!(c.title, "Remember to look into bindless descriptors");
        assert_eq!(c.facts, vec![note.to_string()]);
    }
}

#[test]
fn fallback_on_empty_note_uses_untitled_placeholder_title() {
    let c = parse_classification("garbage", "   ");
    assert_eq!(c.topic, "notes");
    assert_eq!(c.title, "untitled note");
    assert_eq!(c.facts, vec!["".to_string()]);
}

#[test]
fn build_prompt_includes_existing_topics_for_anchoring() {
    let topics = vec!["helios-rendering".to_string(), "dotfiles".to_string()];
    let prompt = build_prompt("a note", &topics, "2026-09-07");
    assert!(prompt.contains("helios-rendering"));
    assert!(prompt.contains("dotfiles"));
    assert!(prompt.contains("2026-09-07"));
}

#[test]
fn build_prompt_with_no_existing_topics_says_so() {
    let prompt = build_prompt("a note", &vec![], "2026-09-07");
    assert!(prompt.contains("(none yet)"));
}

#[test]
fn slugify_lowercases_and_hyphenates() {
    assert_eq!(slugify("Helios RHI descriptor design"), "helios-rhi-descriptor-design");
}

#[test]
fn slugify_collapses_punctuation_and_trims_edges() {
    assert_eq!(slugify("  --Weird!! Title??-- "), "weird-title");
}

#[test]
fn slugify_never_empty() {
    assert_eq!(slugify("!!!"), "note");
    assert_eq!(slugify(""), "note");
}

#[test]
fn fake_note_llm_reply_round_trips_through_parse() {
    let llm = FakeNoteLlm { reply: "TOPIC: t\nTITLE: a title\nFACT: only fact\n".to_string() };
    let out = llm.call("prompt").unwrap();
    let c = parse_classification(&out, "note");
    assert_eq!(c.topic, "t");
    assert_eq!(c.facts, vec!["only fact".to_string()]);
}


#[test]
fn a_failed_call_files_the_note_itself() {
    let c = classify_note(&FailingNoteLlm, "  remember the milk  ", &vec![], "2026-09-07");
    assert_eq!(c.topic, "notes");
    assert_eq!(c.title, "remember the milk");
    assert_eq!(c.facts, vec!["remember the milk".to_string()]);
    let ok = FakeNoteLlm { reply: "TOPIC: t\nTITLE: a title\nFACT: only fact\n".to_string() };
    assert_eq!(classify_note(&ok, "note", &vec![], "2026-09-07").topic, "t");
}

#[test]
fn a_reply_line_in_another_script_is_passed_over() {
    let out = "\u{65e5}\u{672c}\u{8a9e} note\naaaa\u{e9}\nTOPIC: t\nTITLE: x\nFACT: f\n";
    assert_eq!(parse_classification(out, "n").topic, "t");
}

#[test]
fn only_the_first_topic_and_title_count_but_every_fact_does() {
    let c = parse_classification("TOPIC:\nTOPIC: a\nTOPIC: b\nTITLE: x\nTITLE: y\nFACT:\nFACT: 1\nFACT: 2", "n");
    assert_eq!((c.topic.as_str(), c.title.as_str()), ("a", "x"));
    assert_eq!(c.facts, vec!["1".to_string(), "2".to_string()]);
}

#[test]
fn arguments_are_read_in_order() {
    match parse_note_args(&args(&["buy milk", "-i", "12"])) {
        NoteArgs::Note(Some(c), i) => assert_eq!((c.as_str(), i), ("buy milk", 10)),
        other => panic!("{:?}", other),
    }
    assert!(matches!(parse_note_args(&args(&[])), NoteArgs::Note(None, 6)));
    assert!(matches!(parse_note_args(&args(&["-i"])), NoteArgs::Note(None, 6)));
    assert!(matches!(parse_note_args(&args(&["--importance", "x"])), NoteArgs::Note(None, 6)));
    assert!(matches!(parse_note_args(&args(&["-i", "-3"])), NoteArgs::Note(None, 1)));
    assert!(matches!(parse_note_args(&args(&["a", "--help", "b"])), NoteArgs::Help));
    match parse_note_args(&args(&["a", "b", "-h"])) {
        NoteArgs::Unexpected(x) => assert_eq!(x, "b"),
        other => panic!("{:?}", other),
    }
}

#[test]
fn a_filed_note_is_reported_and_sourced_by_its_title() {
    let one = Classification { topic: "t".to_string(), title: "The Title!".to_string(), facts: vec!["f".to_string()] };
    assert_eq!(
        filed_report(&one),
        vec!["filed 1 memory under \"t\"".to_string(), "  refer to it as: \"The Title!\"".to_string(), "  - f".to_string()]
    );
    assert_eq!(note_source(&one.title), "note:the-title");
    assert_eq!(note_text("  x \n"), Some("x".to_string()));
    assert_eq!(note_text(" \t\u{3000}"), None);
}

#[test]
fn slugs_are_kebab_case_for_any_text() {
    for (text, slug) in [("A--b__C", "a-b-c"), ("\u{e9}t\u{e9}", "t"), ("42", "42"), ("\u{2014}", "note")] {
        assert_eq!(slugify(text), slug);
    }
}

#[test]
fn a_slug_is_its_own_slug() {
    for s in ["A b", "", "--x--Y9", "note", "caf\u{e9} au lait"] {
        assert_eq!(slugify(&slugify(s)), slugify(s), "{:?}", s);
    }
}
