use eui_client::install::{
    bundle_dir, desktop_entry, desktop_file, from_url, install, installed, link_file, linux_files, list, mac_files, ours,
    plist, record, removal, shortcut_script, slug, stub, windows_files, App, Entry, Place,
};

#[test]
fn an_app_id_becomes_a_file_name_or_nothing() {
    assert_eq!(slug("counter-app").as_deref(), Some("counter-app"));
    assert_eq!(slug("Counter.App").as_deref(), Some("counter.app"));
    // A path is not a name: every separator goes, and the run of them
    // collapses rather than leaving a file called `a---b`.
    assert_eq!(slug("../../etc/passwd").as_deref(), Some("etc-passwd"));
    assert_eq!(slug("a b").as_deref(), Some("a-b"));
    // Nothing usable in it at all is refused rather than guessed at.
    assert_eq!(slug(""), None);
    assert_eq!(slug("///"), None);
    assert_eq!(slug("..."), None);
    assert!(slug(&"x".repeat(500)).unwrap().len() <= 96);
}

fn entry(app_id: &str, name: &str, url: &str, files: &[&str]) -> Entry {
    Entry { app_id: app_id.into(), name: name.into(), url: url.into(), files: files.iter().map(|f| f.to_string()).collect() }
}

#[test]
fn the_record_round_trips_and_survives_a_torn_line() {
    assert!(list("").is_empty(), "no record is an empty list, not a failure");
    let one = entry("counter-app", "Counter", "wss://demo.example/_eui/session", &["/x/a.desktop", "/x/a.png"]);
    let text = record(&vec![one.clone()]);
    assert_eq!(list(&text), vec![one.clone()]);
    let torn = format!("{text}truncated\n");
    assert_eq!(list(&torn), vec![one]);
}

#[test]
fn a_line_without_an_id_or_an_address_is_skipped_and_blank_files_dropped() {
    let text = "\tName\twss://x\n id \t N \t u \t  \t f \nonly\ttwo\n";
    let got = list(text);
    assert_eq!(got, vec![entry("id", "N", "u", &["f"])]);
}

#[test]
fn installing_replaces_an_earlier_entry() {
    let old = vec![entry("a", "A", "wss://a", &["/1"]), entry("b", "B", "wss://b", &["/2"])];
    let app = App { app_id: "a".into(), name: "A2".into(), url: "wss://a2".into(), icon: vec![1, 2, 3] };
    let (rec, mine) = install(&app, &old, &Place::Linux("/h".into())).unwrap();
    assert_eq!(mine, entry("a", "A2", "wss://a2", &["/h/applications/eui-a.desktop", "/h/icons/eui/a.png"]));
    assert_eq!(rec, vec![entry("b", "B", "wss://b", &["/2"]), mine.clone()]);
    assert!(installed(&rec, "a"));
    assert!(installed(&rec, "b"));
    assert!(!installed(&rec, "c"));
}

#[test]
fn installing_needs_a_usable_app_id() {
    let bad = App { app_id: "///".into(), name: "Demo".into(), url: "wss://x/s".into(), icon: vec![9, 9, 9, 255] };
    assert!(install(&bad, &Vec::new(), &Place::Linux("/h".into())).is_err(), "nothing is written under a name that is not one");
}

#[test]
fn only_what_this_module_writes_is_ever_deleted() {
    let roots = vec!["/home/me/.config/eui".to_string(), "/home/me/.local/share/applications".to_string()];
    assert!(!ours("/etc/passwd", &roots));
    assert!(!ours("/", &roots));
    let inside = format!("{}/eui-demo.desktop", roots[0]);
    assert!(ours(&inside, &roots), "what we write, we may remove");
}

#[test]
fn a_root_is_a_whole_component_and_not_a_prefix_of_one() {
    let roots = vec!["/home/me/.config/eui".to_string()];
    assert!(!ours("/home/me/.config/euil/x", &roots));
    assert!(ours("/home/me//.config/./eui/x", &roots));
    assert!(ours("/home/me/.config/eui", &roots));
    assert!(!ours("home/me/.config/eui/x", &roots));
    assert!(!ours("/anything", &Vec::new()));
}

#[test]
fn an_application_without_an_icon_is_not_installable() {
    let err = from_url("wss://x/s", "demo", "Demo", None).unwrap_err();
    assert_eq!(err, "Demo publishes no icon, so there is nothing to install it as");
    let app = from_url("wss://x/s", "demo", "  ", Some(vec![1, 2])).unwrap();
    assert_eq!(app, App { app_id: "demo".into(), name: "demo".into(), url: "wss://x/s".into(), icon: vec![1, 2] });
    let app = from_url("wss://x/s", "demo", "Demo", Some(vec![])).unwrap();
    assert_eq!(app.name, "Demo");
}

fn demo(name: &str) -> App {
    App { app_id: "demo.app".into(), name: name.into(), url: "wss://x/s?a=1&b=2".into(), icon: vec![] }
}

#[test]
fn a_desktop_entry_names_runs_and_files_the_application() {
    let text = desktop_entry(&demo("  My Demo "), "demo.app", "/usr/bin/eui", "/h/icons/eui/demo.app.png");
    assert_eq!(
        text,
        "[Desktop Entry]\nType=Application\nName=My Demo\nComment=An EUI application\n\
         Exec=\"/usr/bin/eui\" \"wss://x/s?a=1&b=2\"\nIcon=/h/icons/eui/demo.app.png\n\
         Terminal=false\nCategories=Network;\nStartupWMClass=eui\nX-EUI-AppId=demo.app\n"
    );
    assert!(desktop_entry(&demo(""), "demo.app", "/e", "/i").contains("\nName=demo.app\n"));
    assert_eq!(desktop_file("demo.app"), "eui-demo.app.desktop");
}

#[test]
fn a_bundle_is_named_for_the_application_and_holds_the_slug() {
    assert_eq!(bundle_dir(&demo("A/B"), "demo.app"), "A-B.app");
    let p = plist(&demo("Tom & Jerry"), "demo.app");
    assert!(p.starts_with("<?xml version=\"1.0\" encoding=\"UTF-8\"?>\n<!DOCTYPE plist"));
    assert!(p.contains("    <key>CFBundleName</key><string>Tom &amp; Jerry</string>\n"));
    assert!(p.contains("<key>CFBundleIdentifier</key><string>net.eui.app.demo.app</string>"));
    assert!(p.ends_with("</dict>\n</plist>\n"));
    assert_eq!(stub("/Apps/it's", "wss://x"), "#!/bin/sh\nexec '/Apps/it'\\''s' 'wss://x'\n");
}

#[test]
fn a_shortcut_is_named_without_what_windows_refuses() {
    assert_eq!(link_file(&demo("a:b*c?"), "s"), "a-b-c-.lnk");
    assert_eq!(
        shortcut_script("C:\\L\\a.lnk", "C:\\eui.exe", "wss://x", "C:\\i'.ico"),
        "$s = (New-Object -ComObject WScript.Shell).CreateShortcut('C:\\L\\a.lnk'); \
         $s.TargetPath = 'C:\\eui.exe'; $s.Arguments = 'wss://x'; $s.IconLocation = 'C:\\i''.ico'; \
         $s.Description = 'An EUI application'; $s.Save()"
    );
}

#[test]
fn a_refusal_quotes_the_app_id() {
    let bad = App { app_id: "\"/\"".into(), name: "Demo".into(), url: "wss://x/s".into(), icon: vec![] };
    let err = install(&bad, &Vec::new(), &Place::Linux("/h".into())).unwrap_err();
    assert_eq!(err, "\"\\\"/\\\"\" is not a name anything can be filed under");
}

#[test]
fn uninstalling_deletes_only_inside_the_roots_and_drops_the_entry() {
    let mine = entry("counter-app", "Counter", "wss://x/s", &["/h/apps/eui-counter.desktop", "/etc/passwd", "/h/icons/c.png"]);
    let other = entry("other", "Other", "wss://y/s", &["/h/apps/eui-other.desktop"]);
    let roots = vec!["/h/apps".to_string(), "/h/icons".to_string()];
    let (doomed, rest) = removal(&vec![other.clone(), mine.clone()], "counter-app", &roots);
    assert_eq!(doomed, vec!["/h/apps/eui-counter.desktop".to_string(), "/h/icons/c.png".to_string()]);
    assert_eq!(rest, vec![other.clone()]);
    // Nothing installed under that name: nothing to delete, the record as it was.
    let (doomed, rest) = removal(&vec![other.clone()], "counter-app", &roots);
    assert!(doomed.is_empty());
    assert_eq!(rest, vec![other]);
}

#[test]
fn a_file_name_is_its_own_file_name() {
    for id in ["Counter.App", "../../etc/passwd", "a b", "x-y_z.1"] {
        let once = slug(id).unwrap();
        assert_eq!(slug(&once), Some(once.clone()));
    }
}

#[test]
fn every_platform_records_its_launcher_first() {
    let linux = linux_files("/home/p/.local/share", "demo.app");
    assert_eq!(
        linux,
        vec![
            "/home/p/.local/share/applications/eui-demo.app.desktop".to_string(),
            "/home/p/.local/share/icons/eui/demo.app.png".to_string()
        ]
    );
    assert_eq!(mac_files("/Users/p", &demo("My/Demo"), "demo.app"), vec!["/Users/p/Applications/My-Demo.app".to_string()]);
    let win = windows_files("/appdata", &demo("A:B"), "demo.app");
    assert_eq!(
        win,
        vec![
            "/appdata/Microsoft/Windows/Start Menu/Programs/A-B.lnk".to_string(),
            "/appdata/eui/icons/demo.app.ico".to_string()
        ]
    );
}

#[test]
fn an_install_records_its_launcher_entry_first() {
    let app = demo("My Demo");
    for place in [Place::Linux("/h".into()), Place::Mac("/Users/p".into()), Place::Windows("/appdata".into())] {
        let (_, mine) = install(&app, &Vec::new(), &place).unwrap();
        let first = mine.files.first().expect("at least one file");
        assert!(
            first.ends_with(".desktop") || first.ends_with(".app") || first.ends_with(".lnk"),
            "{first} is not a launcher entry"
        );
    }
}
