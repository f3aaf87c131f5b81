use wd::shell::{Dialect, Shell};

#[test]
fn navigate_fish_and_bash() {
    let fish = Shell::new("fish");
    let bash = Shell::new("bash");
    assert_eq!(fish.invoke("/home/u/code"), "cd /home/u/code");
    assert_eq!(bash.invoke("/home/u/code"), "cd /home/u/code");
}

#[test]
fn dialect_selection() {
    assert_eq!(Shell::new("fish").dialect(), Dialect::Fish);
    assert_eq!(Shell::new("bash").dialect(), Dialect::Posix);
    assert_eq!(Shell::new("zsh").dialect(), Dialect::Posix);
    assert_eq!(Shell::new("fishy").dialect(), Dialect::Posix);
    assert_eq!(Shell::new("").dialect(), Dialect::Posix);
}

#[test]
fn init_script_fish() {
    let s = Shell::new("fish").init("wd", "/usr/bin/wd");
    assert_eq!(s, "function wd\n  command /usr/bin/wd --shell fish $argv | source\nend");
}

#[test]
fn init_script_posix() {
    let s = Shell::new("zsh").init("wd", "/usr/bin/wd");
    assert_eq!(s, "function wd {\n  eval \"$(command /usr/bin/wd --shell zsh \"$@\")\"\n}");
}
