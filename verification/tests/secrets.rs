use kb::code_index::secrets::{content_reason, path_reason, reason};

fn rep(c: char, n: usize) -> String {
    std::iter::repeat(c).take(n).collect()
}

#[test]
fn path_patterns_flag_the_listed_secret_files() {
    for p in [
        ".env",
        "deploy/.env",
        ".env.production",
        "certs/server.pem",
        "tls/server.KEY",
        "a/b.p12",
        "b.pfx",
        "home/.ssh/id_rsa",
        "id_rsa.pub",
        "id_ed25519",
        "config/credentials.json",
        "aws_credentials",
        "src/secrets/mod.rs",
        "client_secret.json",
        "vault.kdbx",
        "release.keystore",
    ] {
        assert!(path_reason(p).is_some(), "{} must be flagged", p);
    }
}

#[test]
fn path_patterns_leave_ordinary_source_alone() {
    for p in ["src/main.rs", "env.rs", "src/environment.cpp", ".envrc_docs.md", "keyboard.c", "monkey.py", "README.md", "src/keys.rs"] {
        assert_eq!(path_reason(p), None, "{} must not be flagged", p);
    }
}

#[test]
fn content_markers_flag_each_token_kind() {
    let pem = format!("{}BEGIN RSA PRIVATE KEY{}\nMIIE...\n", rep('-', 5), rep('-', 5));
    let pem_openssh = format!("x\n{}BEGIN OPENSSH PRIVATE KEY{}\n", rep('-', 5), rep('-', 5));
    let ghp = format!("token = \"{}{}\"", "gh".to_string() + "p_", rep('a', 36));
    let gho = format!("{}{}", "gh".to_string() + "o_", rep('Z', 30));
    let pat = format!("t={}{}", "github".to_string() + "_pat_", rep('1', 40));
    let sk = format!("KEY={}{}", "s".to_string() + "k-", rep('x', 24));
    let sk_ant = format!("{}{}{}", "s".to_string() + "k-", "ant-api03-", rep('Q', 40));
    let slack = format!("{}{}-{}", "xo".to_string() + "xb-", rep('1', 12), rep('a', 20));
    let aws = format!("id: {}{}", "AK".to_string() + "IA", rep('Q', 16));
    let google = format!("{}{}", "AI".to_string() + "za", rep('b', 35));
    let jwt = format!("Bearer {}{}.{}{}.sig", "ey".to_string() + "J", rep('h', 20), "ey".to_string() + "J", rep('p', 30));
    for (label, text) in [
        ("pem", pem),
        ("openssh", pem_openssh),
        ("ghp", ghp),
        ("gho", gho),
        ("github_pat", pat),
        ("sk", sk),
        ("sk-ant", sk_ant),
        ("slack", slack),
        ("aws", aws),
        ("google", google),
        ("jwt", jwt),
    ] {
        assert!(content_reason(&text).is_some(), "{} marker must be detected", label);
    }
}

#[test]
fn content_markers_ignore_near_misses_in_ordinary_code() {
    let short_ghp = format!("{}abc", "gh".to_string() + "p_");
    let embedded = format!("my{}{}", "gh".to_string() + "p_", rep('a', 36));
    let aws_long = format!("{}{}", "AK".to_string() + "IA", rep('Q', 20));
    for text in [
        "fn main() { println!(\"hello\"); }".to_string(),
        "-----BEGIN PUBLIC KEY-----\nMIIB\n-----END PUBLIC KEY-----".to_string(),
        "task-scheduler-with-a-long-name-here".to_string(),
        short_ghp,
        embedded,
        aws_long,
        "let x = eyJ;".to_string(),
    ] {
        assert_eq!(content_reason(&text), None, "{:?} must not be flagged", text);
    }
}

#[test]
fn content_markers_flag_aws_secret_keys_and_password_literals() {
    let secret40 = format!("{}{}{}", rep('A', 13), "/b+", rep('9', 24));
    assert_eq!(secret40.len(), 40);
    let aws = format!("aws_secret_access_key = {}", secret40);
    let aws_env = format!("AWS_SECRET_ACCESS_KEY: \"{}\"", secret40);
    let pw_quoted = format!("pass{} = \"{}\"", "word", "hunter2");
    let pw_bare = format!("db_pass{}: {}", "word", "s3cr3t-value");
    let pw_colon = format!("PASS{}=Tr0ub4dor", "WORD");
    for (label, text) in [("aws", aws), ("aws-env", aws_env), ("pw-quoted", pw_quoted), ("pw-bare", pw_bare), ("pw-colon", pw_colon)] {
        assert!(content_reason(&text).is_some(), "{} must be detected: {}", label, text);
    }
    assert_eq!(content_reason(&format!("aws_secret_access_key = {}", secret40)), Some("secret-content(aws-secret-key)"));
}

#[test]
fn password_marker_ignores_fields_comparisons_and_lookups() {
    for text in [
        "struct Login { password: String }",
        "if password == expected { ok() }",
        "let password = read_password();",
        "password: Option<String>,",
        "def check(password): pass",
        "password_hash = bcrypt(pw)",
        "password = \"\"",
        "password: \"${DB_PASSWORD}\"",
        "the password is required",
        "aws_secret_access_key = os.environ['X']",
    ] {
        assert_eq!(content_reason(text), None, "{:?} must not be flagged", text);
    }
}

#[test]
fn the_reason_names_the_pattern_never_the_value() {
    let token = format!("{}{}", "gh".to_string() + "p_", rep('a', 36));
    let r = content_reason(&token).unwrap();
    assert!(!r.contains(&token[4..]), "{}", r);
    assert_eq!(r, "secret-content(github-token)");
}


#[test]
fn the_path_decides_before_the_content() {
    let token = format!("{}{}", "gh".to_string() + "p_", rep('a', 36));
    assert_eq!(reason("certs/A.PEM", &token), Some("secret-path(*.pem)"));
    assert_eq!(reason("src/a.rs", &token), Some("secret-content(github-token)"));
    assert_eq!(reason("src/a.rs", "fn a() {}"), None);
}

#[test]
fn each_path_pattern_has_its_own_label() {
    for (path, label) in [
        ("x/.ENV", "secret-path(.env)"),
        (".env.local", "secret-path(.env)"),
        ("k.key", "secret-path(*.key)"),
        ("k.p12", "secret-path(*.p12)"),
        ("k.pfx", "secret-path(*.pfx)"),
        ("k.kdbx", "secret-path(*.kdbx)"),
        ("k.keystore", "secret-path(*.keystore)"),
        ("id_rsa_old", "secret-path(id_rsa*)"),
        ("d/id_ed25519.pub", "secret-path(id_ed25519*)"),
        ("secret/credentials.txt", "secret-path(*secret*)"),
        ("my-credentials/secret.txt", "secret-path(*credentials*)"),
    ] {
        assert_eq!(path_reason(path), Some(label), "{}", path);
    }
}

#[test]
fn each_content_marker_has_its_own_label() {
    let pem = format!("{}BEGIN RSA PRIVATE KEY{}", rep('-', 5), rep('-', 5));
    let sk = format!("{}{}{}", "s".to_string() + "k-", "proj-", rep('Q', 20));
    let slack = format!("{}{}", "xo".to_string() + "xs-", rep('1', 10));
    let aws = format!("{}{}", "AK".to_string() + "IA", rep('Q', 16));
    let google = format!("{}{}", "AI".to_string() + "za", rep('b', 35));
    let jwt = format!("{}{}.{}{}.", "ey".to_string() + "J", rep('h', 4), "ey".to_string() + "J", rep('p', 4));
    let pw = format!("pass{}='x'", "word");
    for (text, label) in [
        (pem, "secret-content(private-key)"),
        (sk, "secret-content(sk-api-key)"),
        (slack, "secret-content(slack-token)"),
        (aws, "secret-content(aws-access-key)"),
        (google, "secret-content(google-api-key)"),
        (jwt, "secret-content(jwt)"),
        (pw, "secret-content(password)"),
    ] {
        assert_eq!(content_reason(&text), Some(label), "{}", text);
    }
}

#[test]
fn markers_stop_at_their_limits() {
    assert_eq!(content_reason(&format!("{}{}", "gh".to_string() + "p_", rep('a', 19))), None);
    assert_eq!(content_reason(&format!("{}BEGIN\nPRIVATE KEY{}", rep('-', 5), rep('-', 5))), None);
    assert_eq!(content_reason(&format!("{}{}.", "AK".to_string() + "IA", rep('Q', 15))), None);
    let key = rep('A', 40);
    assert_eq!(content_reason(&format!("aws_secret{}{}", rep(' ', 69), key)), Some("secret-content(aws-secret-key)"));
    assert_eq!(content_reason(&format!("aws_secret{}{}", rep(' ', 70), key)), None);
    assert_eq!(content_reason(&format!("aws_secret {}=", key)), None);
    assert_eq!(content_reason(&format!("pass{}: \u{e9}1\u{e9}", "word")), None);
    assert_eq!(content_reason(&format!("pass{}: \u{e9}1\u{e9}x", "word")), Some("secret-content(password)"));
}

#[test]
fn labels_never_hold_what_was_matched() {
    let token = format!("{}{}", "gh".to_string() + "p_", "Q".repeat(36));
    let label = reason("src/a.rs", &format!("let t = \"{}\";", token)).unwrap();
    assert_eq!(label, "secret-content(github-token)");
    assert_eq!(path_reason("A/MySecret.TXT"), path_reason("a/mysecret.txt"));
    assert_eq!(path_reason("A/MySecret.TXT"), Some("secret-path(*secret*)"));
}

#[test]
fn a_line_break_neither_hides_nor_makes_a_secret() {
    let token = format!("{}{}", "gh".to_string() + "p_", "Q".repeat(36));
    let half = format!("{}{}", "gh".to_string() + "p_", "Q".repeat(10));
    let texts = [token, half, "password:".to_string(), "\"hunter2\"".to_string(), "QQQQQQQQQQQQ".to_string(), String::new()];
    for a in &texts {
        for b in &texts {
            let joined = content_reason(&format!("{}\n{}", a, b)).is_some();
            assert_eq!(joined, content_reason(a).is_some() || content_reason(b).is_some(), "{:?} {:?}", a, b);
        }
    }
}
