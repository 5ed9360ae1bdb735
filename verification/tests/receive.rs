use chrono::Utc;
use kvcache::store::{ObjectMemory, ShareMemory};

#[test]
fn test_receive_message_ok_blank() {
    let mut share_memory = ShareMemory::new();
    let message = "set key1\r\n\r\nvalue1\r\n\r\n".to_string();
    let response = share_memory.receive_message(message);
    assert_eq!(response, "OK\r\ninsert completed\r\n\r\n");

    let message = "get key1".to_string();
    let response = share_memory.receive_message(message);
    assert_eq!(response, "OK\r\n\r\nvalue1\r\n\r\n");

    let message = "get key2".to_string();
    let response = share_memory.receive_message(message);
    assert_eq!(response, "OK\r\n\r\n");
}

#[test]
fn test_receive_message_ok_set_error() {
    let mut share_memory = ShareMemory::new();
    let message = "set key1\r\nvalue1\r\n".to_string();
    let response = share_memory.receive_message(message);
    assert_eq!(response, "Err\r\n\r\n");
}

#[test]
fn test_receive_message_ok_value() {
    let mut share_memory = ShareMemory::new();
    let message = "set key2\r\n\r\nvalue2\r\n\r\n".to_string();
    let response = share_memory.receive_message(message);
    assert_eq!(response, "OK\r\ninsert completed\r\n\r\n");

    let message = "get key2".to_string();
    let response = share_memory.receive_message(message);
    assert_eq!(response, "OK\r\n\r\nvalue2\r\n\r\n");
}

#[test]
fn test_receive_message_error_empty_text() {
    let mut share_memory = ShareMemory::new();
    let message = "".to_string();
    let response = share_memory.receive_message(message);
    assert_eq!(response, "Err\r\n\r\n");

    let mut share_memory = ShareMemory::new();
    let message = "".to_string();
    let response = share_memory.receive_message(message);
    assert_eq!(response, "Err\r\n\r\n");
}

#[test]
fn test_receive_message_error_wrong_format() {
    let mut share_memory = ShareMemory::new();
    let message = "sexxxxxx1".to_string();
    let response = share_memory.receive_message(message);
    assert_eq!(response, "Err\r\n\r\n");

    let mut share_memory = ShareMemory::new();
    let message = "".to_string();
    let response = share_memory.receive_message(message);
    assert_eq!(response, "Err\r\n\r\n");
}

#[test]
fn test_set_duration_success() {
    let mut share_memory = ShareMemory::new();
    let message = "set key2\r\nduration: 300\r\n\r\nvalue2\r\n\r\n".to_string();
    let response = share_memory.receive_message(message);
    assert_eq!(response, "OK\r\ninsert completed\r\n\r\n");

    let message = "get key2".to_string();
    let response = share_memory.receive_message(message);
    assert_eq!(response, "OK\r\n\r\nvalue2\r\n\r\n");
}

#[test]
fn test_set_duration_success_1sec() {
    let mut share_memory = ShareMemory::new();
    let message = "set key2\r\nduration: 1\r\n\r\nvalue2\r\n\r\n".to_string();
    let response = share_memory.receive_message(message);
    assert_eq!(response, "OK\r\ninsert completed\r\n\r\n");

    let message = "get key2".to_string();
    let response = share_memory.receive_message(message);
    assert_eq!(response, "OK\r\n\r\nvalue2\r\n\r\n");
}

#[test]
fn test_set_duration_success_1second() {
    let mut share_memory = ShareMemory::new();
    let message = "set key2\r\nduration: 1\r\n\r\nvalue2\r\n\r\n".to_string();
    let response = share_memory.receive_message(message);
    assert_eq!(response, "OK\r\ninsert completed\r\n\r\n");

    let message = "get key2".to_string();
    let response = share_memory.receive_message(message);
    assert_eq!(response, "OK\r\n\r\nvalue2\r\n\r\n");
}

#[test]
fn test_set_duration() {
    let mut share_memory = ShareMemory::new();
    let message = "set key2\r\n\r\nvalue2\r\n\r\n".to_string();
    let response = share_memory.receive_message(message);
    assert_eq!(response, "OK\r\ninsert completed\r\n\r\n");

    let message = "get key2".to_string();
    let response = share_memory.receive_message(message);
    assert_eq!(response, "OK\r\n\r\nvalue2\r\n\r\n");
}

#[test]
fn shared_test_get_key_duration_success() {
    let duration = 100;
    let test_text = "".to_string();
    let obj_mem = ObjectMemory {
        duration_sec: duration,
        raw_data: test_text.clone(),
        created_at: Utc::now().timestamp(),
    };
    let curr = Utc::now().timestamp();
    if let Some(value) = obj_mem.get_key_duration(curr) {
        assert_eq!(value, test_text);
    } else {
        assert!(false);
    }
}

#[test]
fn shared_test_get_key_duration_success_duration() {
    let duration = 100;
    let test_text = "".to_string();
    let obj_mem = ObjectMemory {
        duration_sec: duration,
        raw_data: test_text.clone(),
        created_at: Utc::now().timestamp(),
    };
    let curr = Utc::now().timestamp() + duration;
    if let Some(value) = obj_mem.get_key_duration(curr) {
        assert_eq!(value, test_text);
    } else {
        assert!(false);
    }
}

#[test]
fn shared_test_get_key_duration_fails_sec() {
    let duration = 100;
    let test_text = "".to_string();
    let obj_mem = ObjectMemory {
        duration_sec: duration,
        raw_data: test_text.clone(),
        created_at: Utc::now().timestamp(),
    };
    let curr = Utc::now().timestamp() + duration + 20;
    if let Some(_value) = obj_mem.get_key_duration(curr) {
        assert!(false);
    } else {
        assert!(true);
    }
}

#[test]
fn mod_test_get_key_duration_success() {
    let duration = 100;
    let test_text = "".to_string();
    let obj_mem = ObjectMemory {
        duration_sec: duration,
        raw_data: test_text.clone(),
        created_at: Utc::now().timestamp(),
    };
    let curr = Utc::now().timestamp();
    if let Some(value) = obj_mem.get_key_duration(curr) {
        assert_eq!(value, test_text);
    } else {
        assert!(false);
    }
}

#[test]
fn mod_test_get_key_duration_success_duration() {
    let duration = 100;
    let test_text = "".to_string();
    let obj_mem = ObjectMemory {
        duration_sec: duration,
        raw_data: test_text.clone(),
        created_at: Utc::now().timestamp(),
    };
    let curr = Utc::now().timestamp() + duration;
    if let Some(value) = obj_mem.get_key_duration(curr) {
        assert_eq!(value, test_text);
    } else {
        assert!(false);
    }
}

#[test]
fn mod_test_get_key_duration_fails_sec() {
    let duration = 100;
    let test_text = "".to_string();
    let obj_mem = ObjectMemory {
        duration_sec: duration,
        raw_data: test_text.clone(),
        created_at: Utc::now().timestamp(),
    };
    let curr = Utc::now().timestamp() + duration + 20;
    if let Some(_value) = obj_mem.get_key_duration(curr) {
        assert!(false);
    } else {
        assert!(true);
    }
}

// ----- expiry judged at controlled instants -----

#[test]
fn expiry_error_reported_once_then_absent() {
    let mut share_memory = ShareMemory::new();
    let response = share_memory.receive_message_at("set key\r\nduration: 1\r\n\r\nvalue\r\n\r\n", 1_000, 300);
    assert_eq!(response, "OK\r\ninsert completed\r\n\r\n");

    // more than one simulated second later: expired, reported exactly once
    let response = share_memory.receive_message_at("get key", 1_002, 300);
    assert_eq!(response, "Err\r\n");
    let response = share_memory.receive_message_at("get key", 1_002, 300);
    assert_eq!(response, "OK\r\n\r\n");
}

#[test]
fn default_ttl_applies_when_no_duration_given() {
    let mut share_memory = ShareMemory::new();
    share_memory.receive_message_at("set key\r\n\r\nvalue\r\n\r\n", 1_000, 10);
    // within the default ttl
    assert_eq!(share_memory.receive_message_at("get key", 1_010, 10), "OK\r\n\r\nvalue\r\n\r\n");
    // beyond it
    assert_eq!(share_memory.receive_message_at("get key", 1_011, 10), "Err\r\n");
}

#[test]
fn duration_header_overrides_default_ttl() {
    let mut share_memory = ShareMemory::new();
    share_memory.receive_message_at("set key\r\nduration: 1\r\n\r\nvalue\r\n\r\n", 1_000, 300);
    // the default of 300 seconds would still be fresh here; the override is not
    assert_eq!(share_memory.receive_message_at("get key", 1_005, 300), "Err\r\n");
}

#[test]
fn set_overwrites_prior_value_and_resets_age() {
    let mut share_memory = ShareMemory::new();
    share_memory.receive_message_at("set key\r\nduration: 5\r\n\r\nfirst\r\n\r\n", 1_000, 300);
    share_memory.receive_message_at("set key\r\nduration: 5\r\n\r\nsecond\r\n\r\n", 1_004, 300);
    // at 1_008 the first set would be expired; the overwrite reset the age
    assert_eq!(share_memory.receive_message_at("get key", 1_008, 300), "OK\r\n\r\nsecond\r\n\r\n");
    // and the prior value is gone entirely
    assert_ne!(share_memory.receive_message_at("get key", 1_008, 300), "OK\r\n\r\nfirst\r\n\r\n");
}

#[test]
fn malformed_request_leaves_store_unchanged() {
    let mut share_memory = ShareMemory::new();
    share_memory.receive_message_at("set key\r\n\r\nvalue\r\n\r\n", 1_000, 300);
    let response = share_memory.receive_message_at("foo bar\r\n\r\n", 1_000, 300);
    assert_eq!(response, "Err\r\n\r\n");
    // the earlier entry is untouched and no key was added
    assert_eq!(share_memory.receive_message_at("get key", 1_000, 300), "OK\r\n\r\nvalue\r\n\r\n");
    assert_eq!(share_memory.receive_message_at("get foo", 1_000, 300), "OK\r\n\r\n");
}

#[test]
fn get_of_never_set_key_is_empty_success() {
    let mut share_memory = ShareMemory::new();
    assert_eq!(share_memory.receive_message_at("get nothing", 1_000, 300), "OK\r\n\r\n");
}

#[test]
fn set_of_empty_value_roundtrips() {
    let mut share_memory = ShareMemory::new();
    assert_eq!(
        share_memory.receive_message_at("set key\r\n\r\n\r\n\r\n", 1_000, 300),
        "OK\r\ninsert completed\r\n\r\n"
    );
    assert_eq!(share_memory.receive_message_at("get key", 1_000, 300), "OK\r\n\r\n\r\n\r\n");
}

#[test]
fn unparsable_duration_keeps_default() {
    let mut share_memory = ShareMemory::new();
    share_memory.receive_message_at("set key\r\nduration: soon\r\n\r\nvalue\r\n\r\n", 1_000, 7);
    assert_eq!(share_memory.receive_message_at("get key", 1_007, 7), "OK\r\n\r\nvalue\r\n\r\n");
    assert_eq!(share_memory.receive_message_at("get key", 1_008, 7), "Err\r\n");
}

#[test]
fn last_duration_directive_wins() {
    let mut share_memory = ShareMemory::new();
    share_memory.receive_message_at(
        "set key\r\nduration: 500\r\nduration: 1\r\n\r\nvalue\r\n\r\n",
        1_000,
        300,
    );
    assert_eq!(share_memory.receive_message_at("get key", 1_003, 300), "Err\r\n");
}

#[test]
fn framed_get_ignores_extra_header_lines() {
    let mut share_memory = ShareMemory::new();
    share_memory.receive_message_at("set key\r\n\r\nvalue\r\n\r\n", 1_000, 300);
    assert_eq!(
        share_memory.receive_message_at("get key\r\nanything: else\r\n\r\n", 1_000, 300),
        "OK\r\n\r\nvalue\r\n\r\n"
    );
}

#[test]
fn check_header_classifies_methods() {
    let share_memory = ShareMemory::new();
    assert_eq!(share_memory.check_header_set_method("set key1\r\n".to_string()), Ok(true));
    assert_eq!(share_memory.check_header_set_method("GET key1".to_string()), Ok(false));
    assert!(share_memory.check_header_set_method("foo bar\r\n".to_string()).is_err());
    assert!(share_memory.check_header_set_method("set".to_string()).is_err());
    assert!(share_memory.check_header_set_method("".to_string()).is_err());
}
