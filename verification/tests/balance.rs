use rinha_rust::balance::{backend_list, next_turn, offer_order, MAX_BACKENDS};

#[test]
fn turns_go_round() {
    assert_eq!(next_turn(0, 2), 1);
    assert_eq!(next_turn(1, 2), 0);
    assert_eq!(next_turn(0, 1), 0);
}

#[test]
fn every_backend_is_offered_once() {
    assert_eq!(offer_order(0, 3), vec![0, 1, 2]);
    assert_eq!(offer_order(2, 3), vec![2, 0, 1]);
    assert_eq!(offer_order(0, 1), vec![0]);
    let mut order = offer_order(5, 7);
    order.sort();
    assert_eq!(order, (0..7).collect::<Vec<_>>());
}

fn names(spec: &str) -> Vec<String> {
    backend_list(spec.as_bytes())
        .into_iter()
        .map(|b| String::from_utf8(b).unwrap())
        .collect()
}

#[test]
fn socket_list_is_split_and_trimmed() {
    assert_eq!(
        names("/sockets/api1.sock,/sockets/api2.sock"),
        vec!["/sockets/api1.sock", "/sockets/api2.sock"]
    );
    assert_eq!(names(" /a.sock ,, \t,/b.sock\n"), vec!["/a.sock", "/b.sock"]);
    assert_eq!(names("\u{3000}/c.sock\u{a0}"), vec!["/c.sock"]);
    assert_eq!(names(""), Vec::<String>::new());
    assert_eq!(names(" , "), Vec::<String>::new());
}

#[test]
fn socket_list_matches_str_trim() {
    let spec = " x ,\u{2003}y\u{85}, ,z\u{2029} ,w";
    let expected: Vec<String> = spec
        .split(',')
        .map(str::trim)
        .filter(|p| !p.is_empty())
        .map(ToOwned::to_owned)
        .collect();
    assert_eq!(names(spec), expected);
}

#[test]
fn socket_list_is_capped() {
    let spec: Vec<String> = (0..40).map(|i| format!("/s{}.sock", i)).collect();
    let list = names(&spec.join(","));
    assert_eq!(list.len(), MAX_BACKENDS);
    assert_eq!(list[31], "/s31.sock");
}
