use floton::responses::Response;
use floton::requests::Request;
use floton::settings::Settings;

#[test]
fn from_vec_works() {
    let bytes: Vec<u8> = vec![4, 66, 33, 44];
    let resp = Response::from_vec(bytes);
    assert_eq!(resp.size(), 4);
}

#[test]
fn request_make_frames_body() {
    let req = Request::make(1, vec![55, 22, 33, 44]);
    assert_eq!(req.header.flags, 1);
    assert_eq!(req.header.total_size, 4);
    assert_eq!(req.body, vec![55, 22, 33, 44]);
}

#[test]
fn settings_ports_works() {
    let mut s1 = Settings::defaults();
    let mut s2 = Settings::defaults();
    s1.set_port_for_testing(10000);
    s2.set_port_for_testing(10001);
    assert!(s1.db_port != s2.db_port);
}

#[test]
fn settings_defaults_match_documented_values() {
    let s = Settings::defaults();
    assert_eq!(s.db_map_slots, 100);
    assert_eq!(s.db_port, 8080);
    assert_eq!(s.conn_th_count, 4);
    assert_eq!(s.conn_queue_size, 50);
    assert_eq!(s.serv_addr, "127.0.0.1");
    assert_eq!(s.tcp_park_min, 0);
    assert_eq!(s.tcp_park_max, 1000);
    assert_eq!(s.tcp_park_seg, 50);
    assert_eq!(s.th_free_lim, 5);
}
