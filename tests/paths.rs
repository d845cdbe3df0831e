use giu::paths::{cyg_to_win, replace, win_to_cyg};

#[test]
fn cygwin_drive_becomes_windows_drive() {
    assert_eq!(cyg_to_win("/cygdrive/c/Github/project"), "C:/Github/project");
    assert_eq!(cyg_to_win("relative/path"), "relative/path");
    assert_eq!(cyg_to_win(""), "");
}

#[test]
fn windows_path_becomes_cygwin_path() {
    assert_eq!(win_to_cyg("C:\\Github\\project\\a.zip"), "/cygdrive/c/Github/project/a.zip");
    assert_eq!(win_to_cyg("ServerData/Android/file-hash.csv"), "ServerData/Android/file-hash.csv");
}

#[test]
fn replace_does_not_rescan_replaced_text() {
    assert_eq!(replace("aaa", "aa", "a"), "aa");
    assert_eq!(replace("abcabc", "bc", "XY"), "aXYaXY");
    assert_eq!(replace("abc", "abcd", "x"), "abc");
}
