use chaste::yarn_state::error::Error;
use chaste::yarn_state::parse;

const STATE: &str = "# Warning: This file is automatically generated. Removing it is fine, but will\n\
# cause your node_modules installation to become invalidated.\n\
\n\
__metadata:\n  version: 1\n  nmMode: classic\n\
\n\
\"@babel/code-frame@npm:7.24.7\":\n  locations:\n    - \"node_modules/@babel/code-frame\"\n\
\n\
\"ansi-styles@npm:3.2.1\":\n  locations:\n    - \"node_modules/ansi-styles\"\n    - \"node_modules/chalk/node_modules/ansi-styles\"\n  aliases:\n    - \"ansi-styles@npm:^3.2.1\"\n\
\n\
\"root-workspace-0b6124@workspace:.\":\n  locations:\n    - \"\"\n";

#[test]
fn state_file_is_read() {
    let state = parse(STATE).unwrap();
    assert_eq!(state.version, 1);
    assert_eq!(state.packages.len(), 3);
    assert_eq!(state.packages[0].resolution, "@babel/code-frame@npm:7.24.7");
    assert_eq!(state.packages[0].locations, vec!["node_modules/@babel/code-frame"]);
    assert_eq!(state.packages[1].resolution, "ansi-styles@npm:3.2.1");
    assert_eq!(
        state.packages[1].locations,
        vec!["node_modules/ansi-styles", "node_modules/chalk/node_modules/ansi-styles"]
    );
    assert_eq!(state.packages[2].resolution, "root-workspace-0b6124@workspace:.");
    assert_eq!(state.packages[2].locations, vec![""]);
}

#[test]
fn state_file_with_crlf_and_no_comments() {
    let input = "__metadata:\r\n  version: 42\r\n\r\n\"a@npm:1.0.0\":\r\n  locations:\r\n    - \"node_modules/a\"\r\n";
    let state = parse(input).unwrap();
    assert_eq!(state.version, 42);
    assert_eq!(state.packages.len(), 1);
    assert_eq!(state.packages[0].resolution, "a@npm:1.0.0");
    assert_eq!(state.packages[0].locations, vec!["node_modules/a"]);
}

#[test]
fn state_package_without_locations() {
    let input = "__metadata:\n  version: 1\n\n\"a@npm:1.0.0\":\n  other: field\n    deeper: line\n";
    let state = parse(input).unwrap();
    assert_eq!(state.packages.len(), 1);
    assert!(state.packages[0].locations.is_empty());
}

#[test]
fn state_last_locations_field_wins() {
    let input = "__metadata:\n  version: 1\n\n\"a@npm:1.0.0\":\n  locations:\n    - \"x\"\n  locations:\n    - \"y\"\n    - \"z\"\n";
    let state = parse(input).unwrap();
    assert_eq!(state.packages[0].locations, vec!["y", "z"]);
}

#[test]
fn state_without_packages_is_refused() {
    assert!(matches!(parse("__metadata:\n  version: 1\n"), Err(Error::InvalidSyntax())));
}

#[test]
fn state_empty_is_refused() {
    assert!(matches!(parse(""), Err(Error::InvalidSyntax())));
}

#[test]
fn state_trailing_text_is_refused() {
    let input = "__metadata:\n  version: 1\n\n\"a@npm:1.0.0\":\n  locations:\n    - \"x\"\nrest\n";
    assert!(matches!(parse(input), Err(Error::InvalidSyntax())));
}

#[test]
fn state_version_too_large_is_refused() {
    let input = "__metadata:\n  version: 4294967296\n\n\"a@npm:1.0.0\":\n  locations:\n    - \"x\"\n";
    assert!(matches!(parse(input), Err(Error::InvalidSyntax())));
    let input = "__metadata:\n  version: 4294967295\n\n\"a@npm:1.0.0\":\n  locations:\n    - \"x\"\n";
    assert_eq!(parse(input).unwrap().version, 4294967295);
}

#[test]
fn state_missing_version_is_refused() {
    let input = "__metadata:\n  nmMode: classic\n\n\"a@npm:1.0.0\":\n  locations:\n    - \"x\"\n";
    assert!(matches!(parse(input), Err(Error::InvalidSyntax())));
}
