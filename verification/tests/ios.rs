use eui_client::ios::data_dir;

#[test]
fn an_ios_build_keeps_its_things_in_its_own_container() {
    assert_eq!(data_dir(Some("/var/mobile/x")).as_deref(), Some("/var/mobile/x/Library/Application Support/eui"));
    assert_eq!(data_dir(None), None);
}
