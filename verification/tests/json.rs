//! JSON through a host that parses and prints with `serde_json`: decoding
//! is total, encoding refuses what JSON cannot spell, and a document a value
//! encodes to decodes back to a value `=` to it.

use apolisp::platform::{AdapterFn, ErrorClass, FloatOp, IoFailure, OpenMode, Platform};
use apolisp::printer;
use apolisp::session::{Ended, Session};
use apolisp::value::{StrObj, Value};
use apolisp::vm::{Fault, Vm};
use apolisp::{host, json};
use std::rc::Rc;

/// A host with IEEE floats and no files.
struct Host;

impl Platform for Host {
    fn parse_float(&self, text: &str) -> Option<u64> {
        text.parse::<f64>().ok().map(f64::to_bits)
    }
    fn format_float(&self, bits: u64) -> String {
        f64::from_bits(bits).to_string()
    }
    fn int_to_float(&self, i: i64) -> u64 {
        (i as f64).to_bits()
    }
    fn float_op(&self, op: FloatOp, a: u64, b: u64) -> u64 {
        let (x, y) = (f64::from_bits(a), f64::from_bits(b));
        match op {
            FloatOp::Add => x + y,
            FloatOp::Sub => x - y,
            FloatOp::Mul => x * y,
            FloatOp::Div => x / y,
        }
        .to_bits()
    }
    fn open_file(&mut self, _path: &str, _mode: OpenMode) -> Result<u64, ErrorClass> {
        Err(ErrorClass::NotFound)
    }
    fn read(&mut self, _res: u64, _n: usize) -> Result<Vec<u8>, IoFailure> {
        Err(IoFailure::Os(ErrorClass::Other))
    }
    fn read_to_end(&mut self, _res: u64) -> Result<Vec<u8>, IoFailure> {
        Err(IoFailure::Os(ErrorClass::Other))
    }
    fn write(&mut self, _res: u64, _bytes: &[u8]) -> Result<(), IoFailure> {
        Err(IoFailure::Os(ErrorClass::Other))
    }
    fn close(&mut self, _res: u64) {}
    fn read_stdin(&mut self, _n: usize) -> Result<Vec<u8>, ErrorClass> {
        Ok(Vec::new())
    }
    fn read_stdin_to_end(&mut self) -> Result<Vec<u8>, ErrorClass> {
        Ok(Vec::new())
    }
    fn adapters(&self) -> Vec<AdapterFn> {
        vec![
            AdapterFn { name: "json/decode".to_string(), min: 1, variadic: false },
            AdapterFn { name: "json/encode".to_string(), min: 1, variadic: false },
        ]
    }
    fn call_adapter(_vm: &mut Vm<Self>, which: u32, args: &Vec<Value>) -> Result<Value, Fault> {
        match which {
            0 => {
                let text = host::string_arg(&args[0], "json/decode")?;
                let parsed: serde_json::Value = serde_json::from_str(text)
                    .map_err(|e| json::decode_fault(e.line(), e.column()))?;
                Ok(json::from_json(&from_serde(&parsed)))
            }
            _ => {
                let j = json::to_json(&args[0]).map_err(json::refusal_fault)?;
                Ok(Value::Str(Rc::new(StrObj(to_serde(&j).to_string()))))
            }
        }
    }
}


fn from_serde(j: &serde_json::Value) -> json::Json {
    match j {
        serde_json::Value::Null => json::Json::Null,
        serde_json::Value::Bool(b) => json::Json::Bool(*b),
        serde_json::Value::Number(n) => match n.as_i64() {
            Some(i) => json::Json::Int(i),
            None => json::Json::Float(n.as_f64().unwrap_or(f64::NAN).to_bits()),
        },
        serde_json::Value::String(s) => json::Json::Str(s.clone()),
        serde_json::Value::Array(xs) => json::Json::Array(xs.iter().map(from_serde).collect()),
        serde_json::Value::Object(o) => {
            json::Json::Object(o.iter().map(|(k, v)| (k.clone(), from_serde(v))).collect())
        }
    }
}

fn to_serde(j: &json::Json) -> serde_json::Value {
    match j {
        json::Json::Null => serde_json::Value::Null,
        json::Json::Bool(b) => serde_json::Value::Bool(*b),
        json::Json::Int(i) => serde_json::Value::Number((*i).into()),
        json::Json::Float(bits) => serde_json::Value::Number(
            serde_json::Number::from_f64(f64::from_bits(*bits)).expect("a finite float"),
        ),
        json::Json::Str(s) => serde_json::Value::String(s.clone()),
        json::Json::Array(xs) => serde_json::Value::Array(xs.iter().map(to_serde).collect()),
        json::Json::Object(ps) => {
            let mut o = serde_json::Map::new();
            for (k, v) in ps {
                o.insert(k.clone(), to_serde(v));
            }
            serde_json::Value::Object(o)
        }
    }
}

fn ev(src: &str) -> String {
    let mut s = Session::new(Host);
    run(&mut s, src)
}

fn run(s: &mut Session<Host>, src: &str) -> String {
    match s.eval(src) {
        Ok(Ended::Value(v)) => printer::print(&v, &s.vm.interner, &s.vm.platform),
        Ok(Ended::Threw(u)) => format!("threw {}", printer::print(&u.value, &s.vm.interner, &s.vm.platform)),
        Err(e) => format!("error {}", e.msg),
    }
}

#[test]
fn json_decodes_to_values_and_object_keys_are_strings() {
    assert_eq!(ev(r#"(get (json/decode "{\"a\":1}") "a")"#), "1");
    assert_eq!(ev(r#"(get (json/decode "{\"a\":1}") :a)"#), "nil");

    assert_eq!(ev(r#"(json/decode "null")"#), "nil");
    assert_eq!(ev(r#"(json/decode "[true,false]")"#), "[true false]");
    assert_eq!(ev(r#"(json/decode "[1,2.5,-3]")"#), "[1 2.5 -3]");
    assert_eq!(ev(r#"(json/decode "[]")"#), "[]");
}

#[test]
fn a_decoded_object_prints_the_same_way_twice() {
    let doc = r#"(json/decode "{\"z\":1,\"m\":2,\"a\":3,\"b\":4}")"#;
    let once = ev(doc);
    assert_eq!(once, r#"{"a" 3 "b" 4 "m" 2 "z" 1}"#);
    for _ in 0..8 {
        assert_eq!(ev(doc), once, "decode is not deterministic");
    }
}

#[test]
fn json_refuses_what_it_cannot_represent_and_says_why() {
    for (src, op) in [
        (r#"(json/encode (/ 1.0 0.0))"#, ":encode"),
        (r#"(json/encode (/ -1.0 0.0))"#, ":encode"),
        (r#"(json/encode {:keyword-key 1})"#, ":encode"),
        (r#"(json/decode "{oops")"#, ":decode"),
        (r#"(json/decode "")"#, ":decode"),
    ] {
        let e = ev(&format!("(try {src} (catch e e))"));
        assert!(e.contains(":io-error"), "{src} -> {e}");
        assert!(e.contains(":invalid-data"), "{src} -> {e}");
        assert!(e.contains(op), "{src} should name its operation: {e}");
    }
}

#[test]
fn json_round_trips_the_documents_it_accepts() {
    let mut s = Session::new(Host);
    run(&mut s, r#"(def doc {"n" 1 "f" 2.5 "t" true "z" nil "xs" [1 "two" [3]]})"#);
    assert_eq!(run(&mut s, "(= doc (json/decode (json/encode doc)))"), "true");
}

#[test]
fn an_unrepresentable_value_is_a_type_fault_naming_its_kind() {
    let e = ev("(try (json/encode :k) (catch e e))");
    assert!(e.contains(":vm-error"), "{e}");
    assert!(e.contains("`json/encode` cannot represent a keyword"), "{e}");
}

#[test]
fn decoding_maps_each_kind_of_document_to_its_value() {
    let j = json::Json::Object(vec![
        ("xs".to_string(), json::Json::Array(vec![json::Json::Int(1), json::Json::Null])),
        ("f".to_string(), json::Json::Float(2.5f64.to_bits())),
    ]);
    let v = json::from_json(&j);
    assert_eq!(printer::print(&v, &apolisp::value::Interner::new(), &Host), "{\"xs\" [1 nil] \"f\" 2.5}");
    match json::to_json(&v) {
        Ok(back) => assert_eq!(to_serde(&back), to_serde(&j)),
        Err(e) => panic!("{e:?}"),
    }
    assert_eq!(
        json::to_json(&Value::Float(f64::NAN.to_bits())).err(),
        Some(json::JsonRefusal::NotFinite)
    );
}
