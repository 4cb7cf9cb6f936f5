use envfile::EnvFile;

const SAMPLE: &str = r#"EFI_UUID=DFFD-D047
HOSTNAME=pop-testing
KBD_LAYOUT=us
KBD_MODEL=
KBD_VARIANT=
LANG=en_US.UTF-8
OEM_MODE=0
RECOVERY_UUID=PARTUUID=asdfasd7asdf7sad-asdfa
ROOT_UUID=2ef950c2-5ce6-4ae0-9fb9-a8c7468fa82c
"#;

fn sample_store() -> EnvFile {
    EnvFile::new(String::from("recovery.conf"), SAMPLE.as_bytes())
}

#[test]
fn env_file_read() {
    let env = sample_store();
    assert_eq!(env.len(), 9);
    assert_eq!(env.get("HOSTNAME"), Some("pop-testing"));
    assert_eq!(env.get("LANG"), Some("en_US.UTF-8"));
    assert_eq!(env.get("KBD_LAYOUT"), Some("us"));
    assert_eq!(env.get("KBD_MODEL"), Some(""));
    assert_eq!(env.get("KBD_VARIANT"), Some(""));
    assert_eq!(env.get("EFI_UUID"), Some("DFFD-D047"));
    assert_eq!(env.get("RECOVERY_UUID"), Some("PARTUUID=asdfasd7asdf7sad-asdfa"));
    assert_eq!(env.get("ROOT_UUID"), Some("2ef950c2-5ce6-4ae0-9fb9-a8c7468fa82c"));
    assert_eq!(env.get("OEM_MODE"), Some("0"));
}

#[test]
fn env_file_write() {
    let env = sample_store();
    let copy = env.write();
    assert_eq!(copy.as_slice(), SAMPLE.as_bytes());
}

#[test]
fn parse_sample_mapping() {
    let input = "HOSTNAME=pop-testing\nLANG=en_US.UTF-8\nKBD_LAYOUT=us\nKBD_MODEL=\nEFI_UUID=DFFD-D047\n";
    let env = EnvFile::new(String::from("test.env"), input.as_bytes());
    assert_eq!(env.len(), 5);
    assert_eq!(env.get("LANG"), Some("en_US.UTF-8"));
    assert_eq!(env.get("KBD_MODEL"), Some(""));
    assert_eq!(env.get("HOSTNAME"), Some("pop-testing"));
    assert_eq!(env.get("KBD_LAYOUT"), Some("us"));
    assert_eq!(env.get("EFI_UUID"), Some("DFFD-D047"));
}

#[test]
fn malformed_line_skipped() {
    let input = "justsometext\nLANG=en_US.UTF-8\n";
    let env = EnvFile::new(String::from("test.env"), input.as_bytes());
    assert_eq!(env.len(), 1);
    assert_eq!(env.get("justsometext"), None);
    assert_eq!(env.get("LANG"), Some("en_US.UTF-8"));
}

#[test]
fn update_overwrites_existing_key() {
    let mut env = EnvFile::new(
        String::from("test.env"),
        "HOSTNAME=pop-testing\nLANG=en_US.UTF-8\nKBD_LAYOUT=us\nKBD_MODEL=\nEFI_UUID=DFFD-D047\n"
            .as_bytes(),
    );
    let before = env.len();
    env.update("LANG", "fr_FR.UTF-8");
    assert_eq!(env.get("LANG"), Some("fr_FR.UTF-8"));
    assert_eq!(env.len(), before);
}

#[test]
fn update_inserts_new_key() {
    let mut env = EnvFile::new(
        String::from("test.env"),
        "HOSTNAME=pop-testing\nLANG=en_US.UTF-8\n".as_bytes(),
    );
    let before = env.len();
    env.update("NEW_KEY", "x");
    assert_eq!(env.len(), before + 1);
    assert_eq!(env.get("NEW_KEY"), Some("x"));
}

#[test]
fn write_emits_keys_in_ascending_order() {
    let mut env = EnvFile::new(String::from("test.env"), b"");
    env.update("B", "2");
    env.update("A", "1");
    assert_eq!(env.write().as_slice(), b"A=1\nB=2\n");
}

#[test]
fn parse_keeps_input_order_out_of_the_mapping() {
    let env = EnvFile::new(String::from("test.env"), b"B=2\nA=1\n");
    assert_eq!(env.write().as_slice(), b"A=1\nB=2\n");
}

#[test]
fn empty_input_gives_empty_store() {
    let env = EnvFile::new(String::from("test.env"), b"");
    assert_eq!(env.len(), 0);
    assert_eq!(env.get("ANY"), None);
    assert_eq!(env.write().as_slice(), b"");
}

#[test]
fn duplicate_key_last_occurrence_wins() {
    let env = EnvFile::new(String::from("test.env"), b"K=first\nK=second\n");
    assert_eq!(env.len(), 1);
    assert_eq!(env.get("K"), Some("second"));
}

#[test]
fn value_keeps_later_equals_signs() {
    let env = EnvFile::new(String::from("test.env"), b"K=a=b=c\n");
    assert_eq!(env.get("K"), Some("a=b=c"));
}

#[test]
fn empty_key_is_an_entry() {
    let env = EnvFile::new(String::from("test.env"), b"=v\n");
    assert_eq!(env.len(), 1);
    assert_eq!(env.get(""), Some("v"));
}

#[test]
fn carriage_return_stays_in_value() {
    let env = EnvFile::new(String::from("test.env"), b"K=v\r\n");
    assert_eq!(env.get("K"), Some("v\r"));
}

#[test]
fn missing_final_newline_still_parses() {
    let env = EnvFile::new(String::from("test.env"), b"A=1\nB=2");
    assert_eq!(env.len(), 2);
    assert_eq!(env.get("B"), Some("2"));
}

#[test]
fn invalid_utf8_line_skipped() {
    let mut data: Vec<u8> = Vec::new();
    data.extend_from_slice(b"GOOD=1\nBAD=");
    data.push(0xff);
    data.push(0xfe);
    data.extend_from_slice(b"\nALSO=2\n");
    let env = EnvFile::new(String::from("test.env"), &data);
    assert_eq!(env.len(), 2);
    assert_eq!(env.get("GOOD"), Some("1"));
    assert_eq!(env.get("BAD"), None);
    assert_eq!(env.get("ALSO"), Some("2"));
}

#[test]
fn multibyte_keys_and_values_round_trip() {
    let input = "GRÜSSE=größe\nNAMN=smörgås\n".as_bytes();
    let env = EnvFile::new(String::from("test.env"), input);
    assert_eq!(env.len(), 2);
    assert_eq!(env.get("GRÜSSE"), Some("größe"));
    assert_eq!(env.get("NAMN"), Some("smörgås"));
    assert_eq!(env.write().as_slice(), input);
}

#[test]
fn update_on_empty_store_then_get() {
    let mut env = EnvFile::new(String::from("test.env"), b"");
    env.update("ID", "example");
    assert_eq!(env.get("ID"), Some("example"));
    assert_eq!(env.get("OTHER"), None);
    assert_eq!(env.len(), 1);
}

#[test]
fn path_is_remembered() {
    let env = EnvFile::new(String::from("examples/test.env"), b"A=1\n");
    assert_eq!(env.path.as_str(), "examples/test.env");
}

#[test]
fn blank_lines_contribute_nothing() {
    let env = EnvFile::new(String::from("test.env"), b"\n\nA=1\n\n");
    assert_eq!(env.len(), 1);
    assert_eq!(env.get(""), None);
    assert_eq!(env.get("A"), Some("1"));
}
