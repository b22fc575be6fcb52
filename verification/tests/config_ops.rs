use std::collections::HashMap;
use std::iter;

use dfconfig::Config;

use rand::distributions::Alphanumeric;
use rand::thread_rng;
use rand::Rng;

fn random_alphanumeric() -> String {
    let mut rng = thread_rng();
    iter::repeat(())
        .map(|()| rng.sample(Alphanumeric))
        .map(char::from)
        .take(thread_rng().gen_range(1..50))
        .collect()
}

#[test]
fn test_basic_parse() {
    let key = random_alphanumeric();
    let key2 = random_alphanumeric();
    let value: String = random_alphanumeric();
    let c = Config::read_str(&format!("[{}:{}]", key, value));
    assert_eq!(c.get(&key).unwrap(), value);
    assert_eq!(c.get(&key2), None);
}

#[test]
fn test_multi_value() {
    let key = random_alphanumeric();
    let value: String = format!("{}:{}", random_alphanumeric(), random_alphanumeric());
    let c = Config::read_str(&format!("[{}:{}]", key, value));
    assert_eq!(c.get(&key).unwrap(), value);
}

#[test]
fn test_basic_set() {
    let key = random_alphanumeric();
    let value: String = random_alphanumeric();
    let mut c = Config::new();
    c.set(&key, &value).unwrap();
    assert_eq!(c.get(&key).unwrap(), value);
}

#[test]
fn test_read_modify() {
    let key_a = random_alphanumeric();
    let value_b: String = random_alphanumeric();
    let value_c: String = random_alphanumeric();
    let key_d = random_alphanumeric();
    let value_e: String = random_alphanumeric();
    let mut c = Config::read_str(&format!("[{}:{}]", key_a, value_b));
    assert_eq!(c.get(&key_a).unwrap(), value_b);
    c.set(&key_a, &value_c).unwrap();
    assert_eq!(c.get(&key_a).unwrap(), value_c);
    c.set(&key_d, &value_e).unwrap();
    assert_eq!(c.get(&key_a).unwrap(), value_c);
    assert_eq!(c.get(&key_d).unwrap(), value_e);
}

#[test]
fn test_len() {
    let a: String = random_alphanumeric();
    let b: String = random_alphanumeric();
    let c: String = random_alphanumeric();
    let d: String = random_alphanumeric();
    let e: String = random_alphanumeric();
    let f: String = random_alphanumeric();
    let g: String = random_alphanumeric();
    let mut conf = Config::read_str(&format!("[{}:{}]\r\nfoo bar\r\n[{}:{}]", a, b, c, d));
    assert_eq!(conf.len(), 2);
    conf.set(&e, &f).unwrap();
    assert_eq!(conf.len(), 3);
    conf.set(&e, &g).unwrap();
    assert_eq!(conf.len(), 3);
}

#[test]
fn test_keys_iter() {
    let a: String = random_alphanumeric();
    let b: String = random_alphanumeric();
    let mut conf = Config::new();
    conf.set(&a, "foo").unwrap();
    conf.set(&b, "bar").unwrap();
    let mut iter = conf.keys_iter().into_iter();
    assert_eq!(Some(a), iter.next());
    assert_eq!(Some(b), iter.next());
    assert_eq!(None, iter.next());
}

#[test]
fn test_remove() {
    let a: String = random_alphanumeric();
    let b: String = random_alphanumeric();
    let c: String = random_alphanumeric();
    let d: String = random_alphanumeric();
    let mut conf = Config::read_str(&format!(
        "[{}:foo]\r\n[{}:bar]\r\n[{}:bar2]\r\n[{}:foobar]\r\n[{}:foobar2]",
        a, b, b, c, d
    ));
    assert_eq!(conf.len(), 5);
    assert_eq!(conf.remove(&b), 2);
    assert_eq!(conf.len(), 3);
    assert_eq!(conf.get(&b), None);
    assert_eq!(conf.remove(&a), 1);
    assert_eq!(conf.len(), 2);
    assert_eq!(conf.get(&a), None);
    assert_eq!(conf.remove(&random_alphanumeric()), 0);
}

#[test]
fn test_keys_values_iter() {
    let a: String = random_alphanumeric();
    let b: String = random_alphanumeric();
    let mut conf = Config::new();
    conf.set(&a, "foo").unwrap();
    conf.set(&b, "bar").unwrap();
    let mut iter = conf.keys_values_iter().into_iter();
    assert_eq!(Some((a, "foo".to_string())), iter.next());
    assert_eq!(Some((b, "bar".to_string())), iter.next());
    assert_eq!(None, iter.next());
}

#[test]
fn test_hashmap() {
    let a: String = random_alphanumeric();
    let b: String = random_alphanumeric();
    let mut conf = Config::new();
    conf.set(&a, "foo").unwrap();
    conf.set(&b, "bar").unwrap();
    let hash_map_owned: HashMap<String, String> = conf.to_mapping();
    assert_eq!(hash_map_owned.len(), 2);
    assert_eq!(hash_map_owned.get(&a).unwrap(), "foo");
    assert_eq!(hash_map_owned.get(&b).unwrap(), "bar");
}
