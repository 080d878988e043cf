use vstd::prelude::*;

verus! {

/// What chrono's `to_rfc3339_opts` returns, with Z suffix, for the UTC
/// instant `millis` milliseconds after the Unix epoch: a pure function of
/// the timestamp and the precision flag. An instant outside chrono's
/// representable range renders as the empty string.
pub uninterp spec fn rfc3339_utc(millis: int, with_millis: bool) -> Seq<char>;

/// Relies on chrono's `DateTime::from_timestamp_millis` and
/// `to_rfc3339_opts`: both are pure functions of their arguments, so the
/// rendering depends on the timestamp and the precision flag alone.
#[verifier::external_body]
pub(crate) fn render_utc(millis: i64, with_millis: bool) -> (r: String)
    ensures
        r@ == rfc3339_utc(millis as int, with_millis),
{
    match chrono::DateTime::from_timestamp_millis(millis) {
        Some(dt) => {
            let form = if with_millis {
                chrono::SecondsFormat::Millis
            } else {
                chrono::SecondsFormat::Secs
            };
            dt.to_rfc3339_opts(form, true)
        },
        None => String::new(),
    }
}

/// Relies on chrono's `DateTime::from_timestamp_millis`, `with_timezone`
/// and `format` with `%T` (or `%T%.3f`): a clock-time rendering in the
/// machine's local time zone. The result depends on that time zone, so
/// nothing is promised of it.
#[verifier::external_body]
pub(crate) fn render_local(millis: i64, with_millis: bool) -> (r: String) {
    match chrono::DateTime::from_timestamp_millis(millis) {
        Some(dt) => {
            let local = dt.with_timezone(&chrono::Local);
            if with_millis {
                local.format("%T%.3f").to_string()
            } else {
                local.format("%T").to_string()
            }
        },
        None => String::new(),
    }
}

/// Relies on chrono's `Local::now` and `timestamp_millis`: the current
/// time, of which nothing is promised.
#[verifier::external_body]
pub(crate) fn now_millis() -> (r: i64) {
    chrono::Local::now().timestamp_millis()
}

} // verus!
