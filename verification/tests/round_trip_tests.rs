use llm_fmt::delimited::syntax::Delimiter;
use llm_fmt::filters::max_depth::MaxDepthFilter;
use llm_fmt::value::{Number, Value};
use llm_fmt::{delimited, json, yaml};

/// A small deterministic generator of values.
struct Gen {
    state: u64,
}

impl Gen {
    fn next(&mut self, bound: u64) -> u64 {
        self.state = self.state.wrapping_mul(6364136223846793005).wrapping_add(1442695040888963407);
        (self.state >> 33) % bound
    }

    fn text(&mut self) -> String {
        let alphabet = [
            "a", "b", "Z", "_", "0", "7", "-", ".", "e", " ", ":", "#", ",", "\t", "\n", "\r", "\"", "\\",
            "/", "[", "]", "{", "}", "'", "~", "&", "<", "\u{1}", "\u{7f}", "\u{e9}", "\u{4e2d}",
            "\u{1F600}", "true", "null", "- ", ": ",
        ];
        let len = self.next(6);
        let mut s = String::new();
        for _ in 0..len {
            s.push_str(alphabet[self.next(alphabet.len() as u64) as usize]);
        }
        s
    }

    fn scalar(&mut self) -> Value {
        match self.next(7) {
            0 => Value::Null,
            1 => Value::Bool(self.next(2) == 0),
            2 => Value::Number(Number::Int(self.next(2000) as i64 - 1000)),
            3 => Value::Number(Number::Int(if self.next(2) == 0 { i64::MAX } else { i64::MIN })),
            4 => {
                let literals = ["0.5", "-1.25e10", "1E-3", "12345678901234567890", "-0.0", "3.0"];
                Value::Number(Number::Literal(literals[self.next(6) as usize].to_string()))
            }
            _ => Value::String(self.text()),
        }
    }

    fn keys(&mut self, count: usize) -> Vec<String> {
        let mut keys: Vec<String> = Vec::new();
        while keys.len() < count {
            let k = self.text();
            if !keys.contains(&k) {
                keys.push(k);
            }
        }
        keys
    }

    fn value(&mut self, depth: u32) -> Value {
        if depth == 0 {
            return self.scalar();
        }
        match self.next(4) {
            0 => self.scalar(),
            1 => {
                let n = self.next(4);
                Value::Array((0..n).map(|_| self.value(depth - 1)).collect())
            }
            _ => {
                let n = self.next(4) as usize;
                let keys = self.keys(n);
                Value::Object(keys.into_iter().map(|k| (k, self.value(depth - 1))).collect())
            }
        }
    }

    fn table(&mut self) -> Value {
        let columns = 1 + self.next(4) as usize;
        let keys = self.keys(columns);
        let rows = self.next(5);
        Value::Array(
            (0..rows)
                .map(|_| Value::Object(keys.iter().map(|k| (k.clone(), self.scalar())).collect()))
                .collect(),
        )
    }
}

#[test]
fn json_round_trip_on_many_values() {
    let mut gen = Gen { state: 1 };
    for _ in 0..400 {
        let v = gen.value(4);
        let written = json::write::to_text(&v).unwrap();
        assert_eq!(json::read::parse(written.as_bytes()), Ok(v), "text: {:?}", written);
    }
}

#[test]
fn yaml_round_trip_on_many_values() {
    let mut gen = Gen { state: 2 };
    for _ in 0..400 {
        let v = gen.value(4);
        let written = yaml::write::to_text(&v).unwrap();
        assert_eq!(yaml::read::parse(written.as_bytes()), Ok(v), "text: {:?}", written);
    }
}

#[test]
fn table_round_trip_on_many_values() {
    let mut gen = Gen { state: 3 };
    for _ in 0..400 {
        let v = gen.table();
        for d in [Delimiter::Comma, Delimiter::Tab] {
            let written = delimited::write::to_text(&v, d).unwrap();
            assert_eq!(delimited::read::parse(written.as_bytes(), d), Ok(v.clone()), "text: {:?}", written);
        }
    }
}

#[test]
fn depth_bound_on_many_values() {
    let mut gen = Gen { state: 4 };
    for _ in 0..300 {
        let v = gen.value(5);
        let depth = v.depth();
        for d in 0..7usize {
            let cut = MaxDepthFilter::new(d as i64).unwrap().apply(&v);
            assert!(cut.depth() <= d);
            if d >= depth {
                assert_eq!(cut, v);
            }
        }
    }
}

#[test]
fn reading_again_what_was_read_gives_the_same() {
    for source in [
        "{\"a\":1,\"a\":2,\"b\":[1.0,{\"c\":null}]}",
        " [ 1 , \"\\u00e9\\ud83d\\ude00\" , -0 , 1e2 ] ",
        "\"\\/\"",
    ] {
        let first = json::read::parse(source.as_bytes()).unwrap();
        let written = json::write::to_text(&first).unwrap();
        assert_eq!(json::read::parse(written.as_bytes()), Ok(first));
    }
}
