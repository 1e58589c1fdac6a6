/// Cuts every word that names the test data down to what follows its last
/// slash, so that an output does not depend on where the data lies.
fn sanitize_paths(value: &str) -> String {
    value
        .split(' ')
        .map(|word| {
            if word.contains("testdata") {
                let last_slash = word.rfind('/');
                match last_slash {
                    Some(pos) => &word[pos + 1..],
                    None => word,
                }
            } else {
                word
            }
        })
        .map(|s| s.to_string())
        .collect::<Vec<String>>()
        .join(" ")
}

#[test]
fn sanitize_paths_works() {
    assert_eq!(
        sanitize_paths("/src/nix-doc/testdata/test.nix:5"),
        "test.nix:5"
    );
}

