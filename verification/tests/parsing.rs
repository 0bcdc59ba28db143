use miktik_api::config::Queries;
use miktik_api::formatter::web_responce_formater;
use miktik_api::metrics::Metrics;
use miktik_api::metrics::Record;
use miktik_api::response::head_cut_in_char;
use miktik_api::response::response_decoder;

fn strings(v: &[&str]) -> Vec<String> {
    v.iter().map(|s| s.to_string()).collect()
}

fn query(
    graph: Option<&[&str]>,
    attributes: Option<&[&str]>,
    split_targets: Option<&[&str]>,
    split_character: Option<&str>,
) -> Queries {
    Queries {
        split_targets: split_targets.map(strings),
        split_character: split_character.map(|s| s.to_string()),
        graph_targets: graph.map(strings),
        attributes: attributes.map(strings),
        query: None,
        separator: None,
        command: "/interface/print".to_string(),
        name: "iface".to_string(),
    }
}

fn sample(name: &str, graph: bool, value: &str) -> (String, bool, String) {
    (name.to_string(), graph, value.to_string())
}

fn records_of(m: &Metrics, name: &str) -> Vec<Record> {
    m.get(name).unwrap().clone()
}

#[test]
fn decoder_reads_records() {
    let q = query(Some(&["rx-byte"]), Some(&["name"]), None, None);
    let text = "!re\nname=ether1\nrx-byte=42\nrunning=true\n!re\nname=ether2\nrx-byte=7\n!done";
    let m = response_decoder(text, &q, "10.0.0.1:8728", "core", false).ok().unwrap();
    assert_eq!(m.groups.len(), 1);
    assert_eq!(m.groups[0].0, "iface");
    let records = records_of(&m, "iface");
    assert_eq!(
        records,
        vec![
            vec![sample("name", false, "ether1"), sample("rx_byte", true, "42"), sample("routerboard_name", false, "core")],
            vec![sample("name", false, "ether2"), sample("rx_byte", true, "7"), sample("routerboard_name", false, "core")],
        ]
    );
}

#[test]
fn decoder_labels_everything_without_attributes() {
    let q = query(None, None, None, None);
    let text = "!re\nrunning=true\ndisabled=false\nmtu=1500";
    let m = response_decoder(text, &q, "a", "r1", true).ok().unwrap();
    assert_eq!(
        records_of(&m, "iface"),
        vec![vec![
            sample("running", false, "1"),
            sample("disabled", false, "0"),
            sample("mtu", false, "1500"),
            sample("routerboard_name", false, "r1"),
        ]]
    );
}

#[test]
fn decoder_splits_values() {
    let q = query(Some(&["time"]), Some(&["time"]), Some(&["time"]), Some("ms"));
    let text = "!re\ntime=12ms345us\nhost=1.1.1.1";
    let m = response_decoder(text, &q, "a", "r1", false).ok().unwrap();
    assert_eq!(
        records_of(&m, "iface"),
        vec![vec![
            sample("time_0", true, "12"),
            sample("time_1", true, "345us"),
            sample("time_0", false, "12"),
            sample("time_1", false, "345us"),
            sample("routerboard_name", false, "r1"),
        ]]
    );
    let text = "!re\ntime=ms5ms";
    let m = response_decoder(text, &q, "a", "r1", false).ok().unwrap();
    assert_eq!(
        records_of(&m, "iface"),
        vec![vec![
            sample("time_1", true, "5"),
            sample("time_1", false, "5"),
            sample("routerboard_name", false, "r1"),
        ]]
    );
}

#[test]
fn decoder_keeps_values_without_separator() {
    let q = query(Some(&["time"]), Some(&[]), Some(&["time"]), Some("ms"));
    let text = "!re\ntime=9";
    let m = response_decoder(text, &q, "a", "r1", false).ok().unwrap();
    assert_eq!(records_of(&m, "iface"), vec![vec![sample("time", true, "9"), sample("routerboard_name", false, "r1")]]);
}

#[test]
fn decoder_refuses_empty_and_error_replies_when_verbose() {
    let q = query(None, None, None, None);
    let e = response_decoder("!done", &q, "10.0.0.1", "r1", true).err().unwrap();
    assert_eq!(
        e,
        "\x1b[38;5;11mEmpty message recieved\x1b[39m: '!done' from \x1b[38;5;14m10.0.0.1\x1b[39m in command /interface/print"
    );
    let e = response_decoder("!trap\nmessage=no such command", &q, "10.0.0.1", "r1", true).err().unwrap();
    assert_eq!(e, "\x1b[38;5;9m!trap\x1b[39m responce from \x1b[38;5;14m10.0.0.1\x1b[39m in command /interface/print");
    let e = response_decoder("!fatal", &q, "h", "r1", true).err().unwrap();
    assert_eq!(e, "\x1b[38;5;9m!fatal\x1b[39m responce from \x1b[38;5;14mh\x1b[39m in command /interface/print");
    let m = response_decoder("!done", &q, "10.0.0.1", "r1", false).ok().unwrap();
    assert_eq!(records_of(&m, "iface"), vec![vec![sample("routerboard_name", false, "r1")]]);
}

#[test]
fn head_cut_inside_a_character() {
    assert!(head_cut_in_char("abcd€", false));
    assert!(head_cut_in_char("abcde€", false));
    assert!(!head_cut_in_char("abcdef€", false));
    assert!(head_cut_in_char("!done€", false));
    assert!(!head_cut_in_char("!done€", true));
    assert!(!head_cut_in_char("!re", false));
    assert!(!head_cut_in_char("", true));
}

#[test]
fn formatter_writes_value_lines() {
    let mut m = Metrics::new();
    m.append_records(
        "iface".to_string(),
        vec![vec![
            sample("name", false, "ether1"),
            sample("rx-byte", true, "42"),
            sample("tx", true, "-7"),
            sample("rx-byte", true, "43"),
            sample("routerboard_name", false, "core"),
        ]],
    );
    let mut out = "start\n".to_string();
    web_responce_formater(&m, &mut out);
    assert_eq!(
        out,
        "start\nmiktik_iface_rx-byte{iface_name=\"ether1\", routerboard_name=\"core\"} 43\nmiktik_iface_tx{iface_name=\"ether1\", routerboard_name=\"core\"} -7\n"
    );
}

#[test]
fn formatter_writes_zero_line_without_values() {
    let mut m = Metrics::new();
    m.append_records(
        "cloud".to_string(),
        vec![
            vec![sample("status", true, "ok"), sample("ddns-enabled", false, "1"), sample("routerboard_address", false, "h")],
            vec![],
        ],
    );
    let mut out = String::new();
    web_responce_formater(&m, &mut out);
    assert_eq!(out, "miktik_cloud{cloud_ddns_enabled=\"1\", routerboard_address=\"h\"} 0\nmiktik_cloud{} 0\n");
}

#[test]
fn formatter_reads_integers_only() {
    let mut m = Metrics::new();
    m.append_records(
        "n".to_string(),
        vec![vec![
            sample("a", true, "+5"),
            sample("b", true, "5.0"),
            sample("c", true, ""),
            sample("d", true, "-"),
            sample("e", true, "99999999999999999999999"),
            sample("f", true, "007"),
        ]],
    );
    let mut out = String::new();
    web_responce_formater(&m, &mut out);
    assert_eq!(out, "miktik_n_a{} 5\nmiktik_n_f{} 7\n");
}

#[test]
fn every_line_starts_with_prefix() {
    let q = query(Some(&["rx"]), None, None, None);
    let m = response_decoder("!re\nrx=1\n!re\nrx=2", &q, "a", "r", false).ok().unwrap();
    let mut out = String::new();
    web_responce_formater(&m, &mut out);
    for line in out.lines() {
        assert!(line.starts_with("miktik_"));
    }
    assert!(out.ends_with('\n'));
}
