//! The lines the logger writes to its CSV log.

use vstd::prelude::*;
use vstd::string::StringExecFns;

use crate::neo6m::device::{report_text, NmeaReading};

verus! {

/// `pattern` occurs in `text` as a contiguous run.
pub open spec fn has_substring(text: Seq<char>, pattern: Seq<char>) -> bool {
    exists|i: int|
        0 <= i && i + pattern.len() <= text.len() && #[trigger] text.subrange(i, i + pattern.len())
            == pattern
}

/// `str::contains` with a string pattern: whether `pattern` occurs in `text`
/// as a contiguous run of characters.
#[verifier::external_body]
fn str_contains(text: &str, pattern: &str) -> (found: bool)
    ensures
        found == has_substring(text@, pattern@),
{
    text.contains(pattern)
}

/// The log line for one GPS report line taken at `timestamp`: reports that
/// mention knots are RMC records, all others GGA.
pub open spec fn gps_log_text(timestamp: Seq<char>, report: Seq<char>) -> Seq<char> {
    if has_substring(report, "kts"@) {
        "["@ + timestamp + "]gps-rmc,"@ + report + ",1\n"@
    } else {
        "["@ + timestamp + "]gps-gga,"@ + report + ",1\n"@
    }
}

/// The log line for one GPS report line taken at `timestamp`.
pub fn gps_log_line(timestamp: &str, report: &str) -> (line: String)
    ensures
        line@ == gps_log_text(timestamp@, report@),
{
    let rmc = str_contains(report, "kts");
    let mut line = String::from_str("[");
    line.append(timestamp);
    if rmc {
        line.append("]gps-rmc,");
    } else {
        line.append("]gps-gga,");
    }
    line.append(report);
    line.append(",1\n");
    line
}

/// Every RMC report mentions knots, so it is logged as an RMC record.
pub proof fn lemma_rmc_report_logged_as_rmc(timestamp: Seq<char>, msg: NmeaReading)
    requires
        msg is Rmc,
    ensures
        report_text(msg) is Some,
        gps_log_text(timestamp, report_text(msg)->0) == "["@ + timestamp + "]gps-rmc,"@
            + report_text(msg)->0 + ",1\n"@,
{
    match msg {
        NmeaReading::Rmc { source, speed, bearing } => {
            let a = "GPS RMC DATA  Source: "@;
            let b = "    Speed: "@;
            let c = " kts    Bearing: "@;
            reveal_strlit("GPS RMC DATA  Source: ");
            reveal_strlit("    Speed: ");
            reveal_strlit(" kts    Bearing: ");
            reveal_strlit("kts");
            let t = report_text(msg)->0;
            let head = a + source + b + speed;
            assert(t == head + c + bearing + "°"@);
            let i: int = head.len() as int + 1;
            assert(t.subrange(i, i + 3) =~= "kts"@);
            assert(has_substring(t, "kts"@));
        },
        _ => {},
    }
}

/// A report that mentions knots anywhere is logged as an RMC record, as it
/// stands.
pub proof fn lemma_report_with_kts_logged_as_rmc(timestamp: Seq<char>, report: Seq<char>)
    requires
        has_substring(report, "kts"@),
    ensures
        gps_log_text(timestamp, report) == "["@ + timestamp + "]gps-rmc,"@ + report + ",1\n"@,
{
}

/// A report that does not mention knots is logged as a GGA record, as it
/// stands.
pub proof fn lemma_report_without_kts_logged_as_gga(timestamp: Seq<char>, report: Seq<char>)
    requires
        !has_substring(report, "kts"@),
    ensures
        gps_log_text(timestamp, report) == "["@ + timestamp + "]gps-gga,"@ + report + ",1\n"@,
{
}

/// A GGA report whose fields hold no `k` (as the navigation system's name and
/// the `Debug` text of an `Option<f64>` never do) is logged as a GGA record.
pub proof fn lemma_gga_report_logged_as_gga(
    timestamp: Seq<char>,
    source: Seq<char>,
    latitude: Seq<char>,
    longitude: Seq<char>,
)
    requires
        !source.contains('k'),
        !latitude.contains('k'),
        !longitude.contains('k'),
    ensures
        report_text(NmeaReading::Gga { source, latitude, longitude }) is Some,
        gps_log_text(timestamp, report_text(NmeaReading::Gga { source, latitude, longitude })->0)
            == "["@ + timestamp + "]gps-gga,"@ + report_text(
            NmeaReading::Gga { source, latitude, longitude },
        )->0 + ",1\n"@,
{
    let a = "GPS GGA DATA  Source: "@;
    let b = "    Latitude: "@;
    let c = "°    Longitude: "@;
    let d = "°"@;
    reveal_strlit("GPS GGA DATA  Source: ");
    reveal_strlit("    Latitude: ");
    reveal_strlit("°    Longitude: ");
    reveal_strlit("°");
    reveal_strlit("kts");
    let t = report_text(NmeaReading::Gga { source, latitude, longitude })->0;
    assert(t == a + source + b + latitude + c + longitude + d);
    assert(!a.contains('k') && !b.contains('k') && !c.contains('k') && !d.contains('k'));
    lemma_concat_no_k(a, source);
    lemma_concat_no_k(a + source, b);
    lemma_concat_no_k(a + source + b, latitude);
    lemma_concat_no_k(a + source + b + latitude, c);
    lemma_concat_no_k(a + source + b + latitude + c, longitude);
    lemma_concat_no_k(a + source + b + latitude + c + longitude, d);
    if has_substring(t, "kts"@) {
        let i = choose|i: int|
            0 <= i && i + "kts"@.len() <= t.len() && #[trigger] t.subrange(i, i + "kts"@.len())
                == "kts"@;
        assert(t.subrange(i, i + 3)[0] == t[i]);
        assert(t[i] == 'k');
    }
}

/// Text without `k` followed by text without `k` has no `k`.
proof fn lemma_concat_no_k(x: Seq<char>, y: Seq<char>)
    requires
        !x.contains('k'),
        !y.contains('k'),
    ensures
        !(x + y).contains('k'),
{
    assert forall|j: int| 0 <= j < (x + y).len() implies (x + y)[j] != 'k' by {
        if j < x.len() {
            assert((x + y)[j] == x[j]);
        } else {
            assert((x + y)[j] == y[j - x.len()]);
        }
    }
}

} // verus!
