//! What holds of a conversion as a whole.

use crate::delimited::syntax::Delimiter;
use crate::detect::InputFormat;
use crate::error::Error;
use crate::pipeline::{
    convert_spec, input_choice_of, lower, output_format_of, InputChoice, OutputFormat,
};
use vstd::prelude::*;
use vstd::utf8::{decode_utf8, encode_utf8, encode_utf8_decode_utf8, encode_utf8_valid_utf8};

verus! {

/// The names `json`, `yaml` and `tsv` name the same format for reading
/// and for writing.
proof fn lemma_names()
    ensures
        input_choice_of("json"@) == Some(InputChoice::Fixed(InputFormat::Json)),
        output_format_of("json"@) == Some(OutputFormat::Json),
        input_choice_of("yaml"@) == Some(InputChoice::Fixed(InputFormat::Yaml)),
        output_format_of("yaml"@) == Some(OutputFormat::Yaml),
        input_choice_of("tsv"@) == Some(InputChoice::Fixed(InputFormat::Tsv)),
        output_format_of("tsv"@) == Some(OutputFormat::Tsv),
{
    reveal_strlit("toon");
    reveal_strlit("json");
    reveal_strlit("yaml");
    reveal_strlit("yml");
    reveal_strlit("xml");
    reveal_strlit("csv");
    reveal_strlit("tsv");
    assert(lower("json"@) =~= "json"@);
    assert(lower("yaml"@) =~= "yaml"@);
    assert(lower("tsv"@) =~= "tsv"@);
    assert("json"@[0] == 'j' && "yaml"@[0] == 'y' && "tsv"@[0] == 't' && "toon"@[1] == 'o'
        && "tsv"@[1] == 's' && "csv"@[0] == 'c' && "xml"@[0] == 'x' && "yml"@[1] == 'm'
        && "yaml"@[1] == 'a');
}

/// A JSON text that was converted to JSON is converted to itself.
proof fn lemma_json_again(input: Seq<u8>, s: Seq<char>)
    requires
        convert_spec(input, "json"@, "json"@, None, false, None) == Ok::<Seq<char>, Error>(s),
    ensures
        convert_spec(encode_utf8(s), "json"@, "json"@, None, false, None) == Ok::<
            Seq<char>,
            Error,
        >(s),
{
    lemma_names();
    let text = decode_utf8(input);
    crate::json::canon::law_read_again(text);
    encode_utf8_decode_utf8(s);
    encode_utf8_valid_utf8(s);
}

/// A YAML document that was converted to YAML is converted to itself.
proof fn lemma_yaml_again(input: Seq<u8>, s: Seq<char>)
    requires
        convert_spec(input, "yaml"@, "yaml"@, None, false, None) == Ok::<Seq<char>, Error>(s),
    ensures
        convert_spec(encode_utf8(s), "yaml"@, "yaml"@, None, false, None) == Ok::<
            Seq<char>,
            Error,
        >(s),
{
    lemma_names();
    let text = decode_utf8(input);
    crate::yaml::canon::law_read_again(text);
    encode_utf8_decode_utf8(s);
    encode_utf8_valid_utf8(s);
}

/// A table that was converted to TSV is converted to itself.
proof fn lemma_tsv_again(input: Seq<u8>, s: Seq<char>)
    requires
        convert_spec(input, "tsv"@, "tsv"@, None, false, None) == Ok::<Seq<char>, Error>(s),
    ensures
        convert_spec(encode_utf8(s), "tsv"@, "tsv"@, None, false, None) == Ok::<Seq<char>, Error>(
            s,
        ),
{
    lemma_names();
    let text = decode_utf8(input);
    let d = Delimiter::Tab;
    crate::delimited::canon::law_read_canonical(text, d.mark());
    if let Ok(v) = crate::delimited::syntax::parse_table(text, d.mark()) {
        crate::delimited::laws::law_round_trip(v, d);
    }
    encode_utf8_decode_utf8(s);
    encode_utf8_valid_utf8(s);
}

/// Round trip of a conversion: where an input in JSON, YAML or TSV is
/// converted to its own format, without filters and without sorting, the
/// text that comes out is converted to itself.
pub proof fn law_convert_again(input: Seq<u8>, format: Seq<char>, s: Seq<char>)
    requires
        format == "json"@ || format == "yaml"@ || format == "tsv"@,
        convert_spec(input, format, format, None, false, None) == Ok::<Seq<char>, Error>(s),
    ensures
        convert_spec(encode_utf8(s), format, format, None, false, None) == Ok::<Seq<char>, Error>(
            s,
        ),
{
    if format == "json"@ {
        lemma_json_again(input, s);
    } else if format == "yaml"@ {
        lemma_yaml_again(input, s);
    } else {
        lemma_tsv_again(input, s);
    }
}

} // verus!
