use avail_light::custom::simulation_payload;
use avail_light::custom::Balances;
use avail_light::custom::PostAppData;

#[test]
fn payload_follows_the_last_dash() {
    let data = b"gas-used-{\"balances\":[]}".to_vec();
    assert_eq!(simulation_payload(&data), b"{\"balances\":[]}".to_vec());
}

#[test]
fn payload_follows_the_last_dot_without_a_dash() {
    let data = b"module.response.payload".to_vec();
    assert_eq!(simulation_payload(&data), b"payload".to_vec());
}

#[test]
fn payload_is_everything_without_either_mark() {
    let data = b"plain".to_vec();
    assert_eq!(simulation_payload(&data), b"plain".to_vec());
}

#[test]
fn post_app_data_carries_balances() {
    let balances = Balances { balances: vec![("a".to_string(), "5".to_string())] };
    let reply = PostAppData::Balances(balances.clone());
    assert_eq!(reply, PostAppData::Balances(balances));
    assert_ne!(reply, PostAppData::Error("Not enough balance".to_string()));
}
