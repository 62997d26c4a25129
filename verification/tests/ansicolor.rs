use vpixsh::ansicolor::green;
use vpixsh::ansicolor::red;

#[test]
fn test_green() {
    assert_eq!(green("apa"), "\x1b[32mapa\x1b[39m");
}

#[test]
fn test_red() {
    assert_eq!(red("[127]"), "\x1b[31m[127]\x1b[39m");
}
