//! The NEO-6M GPS receiver: NMEA sentences in, report lines out.

use vstd::prelude::*;
use vstd::slice::slice_to_vec;
use vstd::string::StringExecFns;
use vstd::string::StringSliceAdditionalSpecFns;
use vstd::utf8::{decode_utf8, encode_utf8, pop_first_scalar, valid_first_scalar, valid_utf8};

use nmea_parser::{NmeaParser, ParsedMessage};

use crate::neo6m::framing::{byte_views, gps_sentences, split_sentences, NEWLINE};
use crate::neo6m::safety::{nmea_parse_panics, parses_safely};

verus! {

broadcast use vstd::utf8::encode_utf8_decode_utf8;

/// `nmea_parser::NmeaParser`, held whole and opaque.
#[verifier::external_type_specification]
#[verifier::external_body]
pub struct ExNmeaParser(nmea_parser::NmeaParser);

/// What the parser makes of one sentence, in the terms the report uses: for
/// GGA and RMC the navigation system and the numbers as text.
pub enum NmeaReading {
    Gga { source: Seq<char>, latitude: Seq<char>, longitude: Seq<char> },
    Rmc { source: Seq<char>, speed: Seq<char>, bearing: Seq<char> },
    Other,
    ParseFailed,
}

/// The texts handed to `parser` since it was made, oldest first. All that a
/// parser keeps (fragments of multi-sentence messages, stored and looked up by
/// key in its maps) is built from them.
pub uninterp spec fn nmea_fed(parser: NmeaParser) -> Seq<Seq<char>>;

/// What `NmeaParser::parse_sentence` answers to `text` once it has been handed
/// the texts `fed`: its answer depends on these and on nothing else.
pub uninterp spec fn nmea_answer(fed: Seq<Seq<char>>, text: Seq<char>) -> NmeaReading;

/// `NmeaParser::new` builds a parser that has been handed nothing yet.
pub assume_specification[ nmea_parser::NmeaParser::new ]() -> (parser: NmeaParser)
    ensures
        nmea_fed(parser) == Seq::<Seq<char>>::empty(),
;

/// What the parser made of one sentence, with the numbers the report shows
/// already in the text form the report prints them in.
#[derive(Debug)]
pub enum NmeaMessage {
    /// A GGA fix: navigation system, latitude and longitude.
    Gga { source: String, latitude: String, longitude: String },
    /// An RMC record: navigation system, speed over ground in knots, bearing.
    Rmc { source: String, speed: String, bearing: String },
    /// A sentence of another type, or a part of a multi-sentence message.
    Other,
    /// A sentence the parser refused.
    ParseFailed,
}

impl View for NmeaMessage {
    type V = NmeaReading;

    open spec fn view(&self) -> NmeaReading {
        match self {
            NmeaMessage::Gga { source, latitude, longitude } => NmeaReading::Gga {
                source: source@,
                latitude: latitude@,
                longitude: longitude@,
            },
            NmeaMessage::Rmc { source, speed, bearing } => NmeaReading::Rmc {
                source: source@,
                speed: speed@,
                bearing: bearing@,
            },
            NmeaMessage::Other => NmeaReading::Other,
            NmeaMessage::ParseFailed => NmeaReading::ParseFailed,
        }
    }
}

/// No character that starts an NMEA sentence (`$` or `!`) occurs in `text`.
pub open spec fn lacks_start(text: Seq<char>) -> bool {
    !text.contains('$') && !text.contains('!')
}

/// Text the parser takes without panicking: its UTF-8 bytes are none of
/// the kinds that `nmea_parse_panics` names.
pub open spec fn nmea_safe(text: Seq<char>) -> bool {
    !nmea_parse_panics(encode_utf8(text))
}

/// Hands `sentence` to `NmeaParser::parse_sentence` and keeps of the result
/// which kind of message it was and, for GGA and RMC, the fields that the
/// report prints: the navigation system as `Display` writes it, the others as
/// `Debug` writes their `Option<f64>`. The parser has then been handed the
/// sentence too; what it answers is a function of all it has been handed, and
/// text without `$` and `!` it refuses before anything else is looked at.
/// The text, and every text handed over before (whose AIS fragments the parser
/// may join to it), must be one the parser takes without panicking.
#[verifier::external_body]
fn parse_sentence(parser: &mut NmeaParser, sentence: &str) -> (msg: NmeaMessage)
    requires
        !nmea_parse_panics(sentence.spec_bytes()),
        forall|i: int|
            0 <= i < nmea_fed(*old(parser)).len() ==> nmea_safe(#[trigger] nmea_fed(*old(parser))[i]),
    ensures
        nmea_fed(*final(parser)) == nmea_fed(*old(parser)).push(sentence@),
        msg@ == nmea_answer(nmea_fed(*old(parser)), sentence@),
        lacks_start(sentence@) ==> msg is ParseFailed,
{
    match parser.parse_sentence(sentence) {
        Ok(ParsedMessage::Gga(g)) => NmeaMessage::Gga {
            source: format!("{}", g.source),
            latitude: format!("{:?}", g.latitude),
            longitude: format!("{:?}", g.longitude),
        },
        Ok(ParsedMessage::Rmc(r)) => NmeaMessage::Rmc {
            source: format!("{}", r.source),
            speed: format!("{:?}", r.sog_knots),
            bearing: format!("{:?}", r.bearing),
        },
        Ok(_) => NmeaMessage::Other,
        Err(_) => NmeaMessage::ParseFailed,
    }
}

/// `std::str::from_utf8`: the bytes as text when they are valid UTF-8,
/// nothing otherwise; the text's encoding is the bytes themselves.
#[verifier::external_body]
fn str_from_utf8(bytes: &[u8]) -> (text: Option<&str>)
    ensures
        text is Some <==> valid_utf8(bytes@),
        text matches Some(t) ==> t.spec_bytes() == bytes@,
{
    std::str::from_utf8(bytes).ok()
}

/// The line the receiver reports for one parsed message, if any.
pub open spec fn report_text(msg: NmeaReading) -> Option<Seq<char>> {
    match msg {
        NmeaReading::Gga { source, latitude, longitude } => Some(
            "GPS GGA DATA  Source: "@ + source + "    Latitude: "@ + latitude + "°    Longitude: "@
                + longitude + "°"@,
        ),
        NmeaReading::Rmc { source, speed, bearing } => Some(
            "GPS RMC DATA  Source: "@ + source + "    Speed: "@ + speed + " kts    Bearing: "@
                + bearing + "°"@,
        ),
        NmeaReading::Other => None,
        NmeaReading::ParseFailed => Some("GPS Parse Error"@),
    }
}

/// The report lines of a run of messages, in order.
pub open spec fn report_all(msgs: Seq<NmeaReading>) -> Seq<Seq<char>>
    decreases msgs.len(),
{
    if msgs.len() == 0 {
        Seq::empty()
    } else {
        match report_text(msgs.last()) {
            Some(line) => report_all(msgs.drop_last()).push(line),
            None => report_all(msgs.drop_last()),
        }
    }
}

/// A run of messages reports at most one line per message.
pub proof fn lemma_report_at_most_one_per_message(msgs: Seq<NmeaReading>)
    ensures
        report_all(msgs).len() <= msgs.len(),
    decreases msgs.len(),
{
    if msgs.len() > 0 {
        lemma_report_at_most_one_per_message(msgs.drop_last());
    }
}

/// A GGA report holds its fields where they belong: the source after
/// `Source: `, the latitude after `Latitude: ` and the longitude after
/// `Longitude: `, each exactly as the message gives it.
pub proof fn lemma_gga_report_fields(source: Seq<char>, latitude: Seq<char>, longitude: Seq<char>)
    ensures
        report_text(NmeaReading::Gga { source, latitude, longitude }) is Some,
        ({
            let t = report_text(NmeaReading::Gga { source, latitude, longitude })->0;
            let a: int = 22 + (source.len() as int);
            let b: int = a + 14;
            let c: int = b + (latitude.len() as int) + 16;
            &&& t.len() == c + (longitude.len() as int) + 1
            &&& t.subrange(0, 22) == "GPS GGA DATA  Source: "@
            &&& t.subrange(22, a) == source
            &&& t.subrange(a, b) == "    Latitude: "@
            &&& t.subrange(b, b + (latitude.len() as int)) == latitude
            &&& t.subrange(b + (latitude.len() as int), c) == "°    Longitude: "@
            &&& t.subrange(c, c + (longitude.len() as int)) == longitude
            &&& t.subrange(c + (longitude.len() as int), t.len() as int) == "°"@
        }),
{
    reveal_strlit("GPS GGA DATA  Source: ");
    reveal_strlit("    Latitude: ");
    reveal_strlit("°    Longitude: ");
    reveal_strlit("°");
    let t = report_text(NmeaReading::Gga { source, latitude, longitude })->0;
    let a: int = 22 + (source.len() as int);
    let b: int = a + 14;
    let c: int = b + (latitude.len() as int) + 16;
    assert(t.subrange(0, 22) =~= "GPS GGA DATA  Source: "@);
    assert(t.subrange(22, a) =~= source);
    assert(t.subrange(a, b) =~= "    Latitude: "@);
    assert(t.subrange(b, b + (latitude.len() as int)) =~= latitude);
    assert(t.subrange(b + (latitude.len() as int), c) =~= "°    Longitude: "@);
    assert(t.subrange(c, c + (longitude.len() as int)) =~= longitude);
    assert(t.subrange(c + (longitude.len() as int), t.len() as int) =~= "°"@);
}

/// An RMC report holds its fields where they belong: the source after
/// `Source: `, the speed after `Speed: ` and before ` kts`, and the bearing
/// after `Bearing: `, each exactly as the message gives it.
pub proof fn lemma_rmc_report_fields(source: Seq<char>, speed: Seq<char>, bearing: Seq<char>)
    ensures
        report_text(NmeaReading::Rmc { source, speed, bearing }) is Some,
        ({
            let t = report_text(NmeaReading::Rmc { source, speed, bearing })->0;
            let a: int = 22 + (source.len() as int);
            let b: int = a + 11;
            let c: int = b + (speed.len() as int) + 17;
            &&& t.len() == c + (bearing.len() as int) + 1
            &&& t.subrange(0, 22) == "GPS RMC DATA  Source: "@
            &&& t.subrange(22, a) == source
            &&& t.subrange(a, b) == "    Speed: "@
            &&& t.subrange(b, b + (speed.len() as int)) == speed
            &&& t.subrange(b + (speed.len() as int), c) == " kts    Bearing: "@
            &&& t.subrange(c, c + (bearing.len() as int)) == bearing
            &&& t.subrange(c + (bearing.len() as int), t.len() as int) == "°"@
        }),
{
    reveal_strlit("GPS RMC DATA  Source: ");
    reveal_strlit("    Speed: ");
    reveal_strlit(" kts    Bearing: ");
    reveal_strlit("°");
    let t = report_text(NmeaReading::Rmc { source, speed, bearing })->0;
    let a: int = 22 + (source.len() as int);
    let b: int = a + 11;
    let c: int = b + (speed.len() as int) + 17;
    assert(t.subrange(0, 22) =~= "GPS RMC DATA  Source: "@);
    assert(t.subrange(22, a) =~= source);
    assert(t.subrange(a, b) =~= "    Speed: "@);
    assert(t.subrange(b, b + (speed.len() as int)) =~= speed);
    assert(t.subrange(b + (speed.len() as int), c) =~= " kts    Bearing: "@);
    assert(t.subrange(c, c + (bearing.len() as int)) =~= bearing);
    assert(t.subrange(c + (bearing.len() as int), t.len() as int) =~= "°"@);
}

/// A refused sentence is reported as `GPS Parse Error`, and a message of
/// any other kind is not reported.
pub proof fn lemma_report_other_kinds()
    ensures
        report_text(NmeaReading::ParseFailed) == Some("GPS Parse Error"@),
        report_text(NmeaReading::Other) is None,
{
}

/// One more message adds its own report line after the lines before it, or
/// nothing when it is of a kind that is not reported; the lines before it
/// never change what it adds.
pub proof fn lemma_report_push(msgs: Seq<NmeaReading>, m: NmeaReading)
    ensures
        m is Other ==> report_all(msgs.push(m)) == report_all(msgs),
        !(m is Other) ==> report_text(m) is Some && report_all(msgs.push(m)) == report_all(msgs).push(
            report_text(m)->0,
        ),
{
    assert(msgs.push(m).drop_last() =~= msgs);
    assert(msgs.push(m).last() == m);
}

/// The report of two runs of messages one after the other is the report of
/// the first followed by that of the second.
pub proof fn lemma_report_concat(a: Seq<NmeaReading>, b: Seq<NmeaReading>)
    ensures
        report_all(a + b) == report_all(a) + report_all(b),
    decreases b.len(),
{
    if b.len() == 0 {
        assert(a + b =~= a);
        assert(report_all(a) + report_all(b) =~= report_all(a));
    } else {
        let b1 = b.drop_last();
        lemma_report_concat(a, b1);
        assert(a + b =~= (a + b1).push(b.last()));
        assert(b =~= b1.push(b.last()));
        lemma_report_push(a + b1, b.last());
        lemma_report_push(b1, b.last());
        assert(report_all(a + b) =~= report_all(a) + report_all(b));
    }
}

/// The number of messages in `msgs` that are reported.
pub open spec fn reported_count(msgs: Seq<NmeaReading>) -> nat
    decreases msgs.len(),
{
    if msgs.len() == 0 {
        0
    } else if msgs.last() is Other {
        reported_count(msgs.drop_last())
    } else {
        reported_count(msgs.drop_last()) + 1
    }
}

/// Exactly one line per message that is not `Other`, equal ones included.
pub proof fn lemma_report_count(msgs: Seq<NmeaReading>)
    ensures
        report_all(msgs).len() == reported_count(msgs),
    decreases msgs.len(),
{
    if msgs.len() > 0 {
        lemma_report_count(msgs.drop_last());
        assert(msgs =~= msgs.drop_last().push(msgs.last()));
        lemma_report_push(msgs.drop_last(), msgs.last());
    }
}

/// The text of a string, if there is one.
pub open spec fn opt_text(s: Option<String>) -> Option<Seq<char>> {
    match s {
        Some(s) => Some(s@),
        None => None,
    }
}

/// The texts of a sequence of strings.
pub open spec fn string_views(v: Seq<String>) -> Seq<Seq<char>> {
    v.map_values(|s: String| s@)
}

/// The views of a sequence of messages.
pub open spec fn message_views(v: Seq<NmeaMessage>) -> Seq<NmeaReading> {
    v.map_values(|m: NmeaMessage| m@)
}

/// The text handed to the parser for a sentence: the sentence with its
/// newline put back, decoded.
pub open spec fn sentence_text(sentence: Seq<u8>) -> Seq<char> {
    decode_utf8(sentence.push(NEWLINE))
}

/// The texts handed to the parser for `data`, one per sentence, in order.
pub open spec fn gps_texts(data: Seq<u8>) -> Seq<Seq<char>> {
    gps_sentences(data).map_values(|s: Seq<u8>| sentence_text(s))
}

/// The parser's answers to `texts`, handed over one after the other to a
/// parser that had been handed `fed` before.
pub open spec fn gps_answers(fed: Seq<Seq<char>>, texts: Seq<Seq<char>>) -> Seq<NmeaReading> {
    Seq::new(texts.len(), |i: int| nmea_answer(fed + texts.take(i), texts[i]))
}

/// The text handed to the parser for a sentence is the sentence's own text
/// followed by one newline.
pub proof fn lemma_sentence_text_adds_newline(sentence: Seq<u8>)
    requires
        valid_utf8(sentence),
    ensures
        sentence_text(sentence) == decode_utf8(sentence) + seq!['\n'],
{
    let nl = seq![NEWLINE];
    assert(valid_first_scalar(nl));
    assert(pop_first_scalar(nl) =~= Seq::<u8>::empty());
    assert(valid_utf8(Seq::<u8>::empty()));
    assert(valid_utf8(nl));
    vstd::utf8::valid_utf8_concat(sentence, nl);
    let b = sentence.push(NEWLINE);
    assert(b =~= sentence + nl);
    let k = sentence.len() as int;
    vstd::utf8::is_char_boundary_iff_is_leading_byte(b, k);
    assert(vstd::utf8::is_leading_byte_width_1(b[k]));
    vstd::utf8::decode_utf8_split(b, k);
    assert(b.subrange(0, k) =~= sentence);
    assert(b.subrange(k, b.len() as int) =~= nl);
    assert(decode_utf8(Seq::<u8>::empty()) =~= Seq::<char>::empty());
    assert((NEWLINE & 0x7f) as u32 == 10) by (bit_vector);
    assert(vstd::utf8::decode_first_scalar(nl) == 10);
    assert(pop_first_scalar(nl) =~= Seq::<u8>::empty());
    assert((10u32 as char) == '\n');
    assert(decode_utf8(nl) =~= seq!['\n']);
}

/// The messages reported are the parser's own answers, untouched: the answer
/// for text `i` is what the parser gives it after the texts before it.
pub proof fn lemma_gps_answers_are_parser_answers(fed: Seq<Seq<char>>, texts: Seq<Seq<char>>)
    ensures
        gps_answers(fed, texts).len() == texts.len(),
        forall|i: int|
            0 <= i < texts.len() ==> #[trigger] gps_answers(fed, texts)[i] == nmea_answer(
                fed + texts.take(i),
                texts[i],
            ),
{
}

/// Handing over one more text adds the parser's answer to it, given all the
/// texts before it, and leaves the earlier answers as they were.
pub proof fn lemma_gps_answers_push(fed: Seq<Seq<char>>, texts: Seq<Seq<char>>, text: Seq<char>)
    ensures
        gps_answers(fed, texts.push(text)) == gps_answers(fed, texts).push(
            nmea_answer(fed + texts, text),
        ),
{
    assert(texts.push(text).take(texts.len() as int) =~= texts);
    assert forall|i: int| 0 <= i < texts.len() implies texts.push(text).take(i) == texts.take(i)
        by {
        assert(texts.push(text).take(i) =~= texts.take(i));
    }
    assert(gps_answers(fed, texts.push(text)) =~= gps_answers(fed, texts).push(
        nmea_answer(fed + texts, text),
    ));
}

/// A blank line changes nothing that is handed to the parser: doubling a
/// newline in the data leaves the texts as they were, so `read_gps_data`
/// reports the same lines and leaves the parser as it would have.
pub proof fn lemma_blank_line_handed_over_alike(a: Seq<u8>, b: Seq<u8>)
    ensures
        gps_texts(a + seq![NEWLINE] + (seq![NEWLINE] + b)) == gps_texts(a + seq![NEWLINE] + b),
{
    crate::neo6m::framing::lemma_blank_line_ignored(a, b);
}

/// Every sentence in `data` is valid UTF-8 and, with its newline, text the
/// parser takes without panicking.
pub open spec fn gps_data_readable(data: Seq<u8>) -> bool {
    forall|i: int|
        0 <= i < gps_sentences(data).len() ==> valid_utf8(#[trigger] gps_sentences(data)[i])
            && !nmea_parse_panics(gps_sentences(data)[i].push(NEWLINE))
}

/// The line the receiver reports for one parsed message; `None` for messages
/// it does not report.
pub fn report_line(msg: &NmeaMessage) -> (line: Option<String>)
    ensures
        opt_text(line) == report_text(msg@),
{
    match msg {
        NmeaMessage::Gga { source, latitude, longitude } => {
            let mut s = String::from_str("GPS GGA DATA  Source: ");
            s.append(source.as_str());
            s.append("    Latitude: ");
            s.append(latitude.as_str());
            s.append("°    Longitude: ");
            s.append(longitude.as_str());
            s.append("°");
            Some(s)
        },
        NmeaMessage::Rmc { source, speed, bearing } => {
            let mut s = String::from_str("GPS RMC DATA  Source: ");
            s.append(source.as_str());
            s.append("    Speed: ");
            s.append(speed.as_str());
            s.append(" kts    Bearing: ");
            s.append(bearing.as_str());
            s.append("°");
            Some(s)
        },
        NmeaMessage::Other => None,
        NmeaMessage::ParseFailed => Some(String::from_str("GPS Parse Error")),
    }
}

/// The report lines of `msgs`, in order: one per GGA, RMC or refused
/// sentence, none for other messages.
pub fn gps_report(msgs: &[NmeaMessage]) -> (lines: Vec<String>)
    ensures
        string_views(lines@) == report_all(message_views(msgs@)),
{
    let mut lines: Vec<String> = Vec::new();
    let n = msgs.len();
    for i in 0..n
        invariant
            n == msgs@.len(),
            string_views(lines@) == report_all(message_views(msgs@.take(i as int))),
    {
        assert(message_views(msgs@.take(i + 1)).drop_last() =~= message_views(
            msgs@.take(i as int),
        ));
        assert(message_views(msgs@.take(i + 1)).last() == msgs@[i as int]@);
        let ghost before = string_views(lines@);
        match report_line(&msgs[i]) {
            Some(line) => {
                lines.push(line);
                assert(string_views(lines@) =~= before.push(line@));
            },
            None => {},
        }
    }
    assert(msgs@.take(n as int) =~= msgs@);
    lines
}

/// Whether `data` is what `read_gps_data` takes: every sentence valid UTF-8
/// and, with its newline, text the parser takes without panicking.
pub fn gps_data_is_readable(data: &[u8]) -> (ok: bool)
    ensures
        ok == gps_data_readable(data@),
{
    let sentences = split_sentences(data);
    let n = sentences.len();
    assert(byte_views(sentences@).len() == n);
    for i in 0..n
        invariant
            n == sentences@.len(),
            byte_views(sentences@) == gps_sentences(data@),
            forall|j: int|
                0 <= j < i ==> valid_utf8(#[trigger] gps_sentences(data@)[j])
                    && !nmea_parse_panics(gps_sentences(data@)[j].push(NEWLINE)),
    {
        assert(gps_sentences(data@)[i as int] == sentences@[i as int]@);
        if str_from_utf8(sentences[i].as_slice()).is_none() {
            return false;
        }
        let mut line = slice_to_vec(sentences[i].as_slice());
        line.push(NEWLINE);
        assert(line@ =~= gps_sentences(data@)[i as int].push(NEWLINE));
        if !parses_safely(line.as_slice()) {
            return false;
        }
    }
    true
}

/// The NEO-6M receiver's sentence handling: the NMEA parser and the state it
/// keeps between sentences.
pub struct NEO6M {
    parser: NmeaParser,
}

impl NEO6M {
    /// The texts this receiver's parser has been handed so far.
    pub closed spec fn fed(&self) -> Seq<Seq<char>> {
        nmea_fed(self.parser)
    }

    /// Every text the parser has been handed is one it takes without
    /// panicking.
    pub open spec fn wf(&self) -> bool {
        forall|i: int| 0 <= i < self.fed().len() ==> nmea_safe(#[trigger] self.fed()[i])
    }

    /// A receiver whose parser has been handed nothing yet.
    pub fn new() -> (gps: NEO6M)
        ensures
            gps.fed() == Seq::<Seq<char>>::empty(),
            gps.wf(),
    {
        NEO6M { parser: NmeaParser::new() }
    }

    /// Cuts `data`, as read from the serial port, into sentences, hands
    /// each one with its newline to the parser, and returns the report line
    /// of every GGA, RMC or refused sentence, in order.
    pub fn read_gps_data(&mut self, data: &[u8]) -> (lines: Vec<String>)
        requires
            old(self).wf(),
            gps_data_readable(data@),
        ensures
            final(self).wf(),
            final(self).fed() == old(self).fed() + gps_texts(data@),
            string_views(lines@) == report_all(gps_answers(old(self).fed(), gps_texts(data@))),
            forall|i: int|
                0 <= i < gps_texts(data@).len() && lacks_start(#[trigger] gps_texts(data@)[i])
                    ==> gps_answers(old(self).fed(), gps_texts(data@))[i] is ParseFailed,
    {
        let ghost fed0 = self.fed();
        let ghost texts = gps_texts(data@);
        let sentences = split_sentences(data);
        let n = sentences.len();
        let mut msgs: Vec<NmeaMessage> = Vec::new();
        assert(byte_views(sentences@).len() == n);
        for i in 0..n
            invariant
                n == sentences@.len(),
                byte_views(sentences@) == gps_sentences(data@),
                gps_data_readable(data@),
                self.wf(),
                texts == gps_texts(data@),
                texts.len() == n,
                self.fed() == fed0 + texts.take(i as int),
                msgs@.len() == i,
                forall|j: int|
                    0 <= j < i ==> (#[trigger] msgs@[j])@ == nmea_answer(
                        fed0 + texts.take(j),
                        texts[j],
                    ),
                forall|j: int| 0 <= j < i && lacks_start(texts[j]) ==> (#[trigger] msgs@[j]) is ParseFailed,
        {
            let ghost bytes = gps_sentences(data@)[i as int];
            assert(bytes == sentences@[i as int]@);
            assert(valid_utf8(bytes) && !nmea_parse_panics(bytes.push(NEWLINE)));
            let mut line = slice_to_vec(sentences[i].as_slice());
            line.push(NEWLINE);
            assert(line@ =~= bytes + seq![NEWLINE]);
            proof {
                let nl = seq![NEWLINE];
                assert(valid_first_scalar(nl));
                assert(pop_first_scalar(nl) =~= Seq::<u8>::empty());
                assert(valid_utf8(Seq::<u8>::empty()));
                assert(valid_utf8(nl));
                vstd::utf8::valid_utf8_concat(bytes, seq![NEWLINE]);
            }
            match str_from_utf8(line.as_slice()) {
                Some(s) => {
                    assert(s@ == texts[i as int]);
                    assert(nmea_safe(s@));
                    let msg = parse_sentence(&mut self.parser, s);
                    msgs.push(msg);
                    assert(texts.take(i + 1) =~= texts.take(i as int).push(texts[i as int]));
                    assert(fed0 + texts.take(i + 1) =~= (fed0 + texts.take(i as int)).push(
                        texts[i as int],
                    ));
                },
                None => {
                    assert(false);
                },
            }
        }
        assert(texts.take(n as int) =~= texts);
        assert(message_views(msgs@) =~= gps_answers(fed0, texts));
        gps_report(msgs.as_slice())
    }
}

} // verus!
