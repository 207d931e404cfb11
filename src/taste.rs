use vstd::prelude::*;

verus! {

/// Rating for a food whose taste has not been recorded yet.
pub const UNKNOWN_TASTINESS: i8 = 99;

/// Rating recorded when a food is reset to neutral.
pub const NEUTRAL_TASTINESS: i8 = 0;

/// A rating is one of -3 ..= 3, or the unknown sentinel.
pub open spec fn valid_tastiness(rating: i8) -> bool {
    (-3 <= rating && rating <= 3) || rating == UNKNOWN_TASTINESS
}

/// The taste multiplier of a rating, in hundredths (70 = 0.7x, 130 = 1.3x).
/// The unknown sentinel is neutral; a rating outside the scale counts as zero.
pub open spec fn taste_percent_of(rating: i8) -> u32 {
    if -3 <= rating && rating <= 3 {
        (100 + 10 * rating) as u32
    } else if rating == UNKNOWN_TASTINESS {
        100
    } else {
        0
    }
}

/// The display name of a rating; anything off the scale reads "unknown".
pub open spec fn tastiness_name_of(rating: i8) -> &'static str {
    if rating == -3 {
        "hated"
    } else if rating == -2 {
        "horrible"
    } else if rating == -1 {
        "bad"
    } else if rating == 0 {
        "neutral"
    } else if rating == 1 {
        "good"
    } else if rating == 2 {
        "great"
    } else if rating == 3 {
        "favorite"
    } else {
        "unknown"
    }
}

/// Whether `rating` is on the tastiness scale (or is the unknown sentinel).
pub fn is_valid_tastiness(rating: i8) -> (r: bool)
    ensures
        r == valid_tastiness(rating),
{
    (-3 <= rating && rating <= 3) || rating == UNKNOWN_TASTINESS
}

/// Taste multiplier of a rating in hundredths of the neutral multiplier.
pub fn tastiness_percent(rating: i8) -> (r: u32)
    ensures
        r == taste_percent_of(rating),
{
    if -3 <= rating && rating <= 3 {
        (100 + 10 * rating as i32) as u32
    } else if rating == UNKNOWN_TASTINESS {
        100
    } else {
        0
    }
}

/// Human-readable name for a tastiness rating.
pub fn tastiness_name(rating: i8) -> (r: &'static str)
    ensures
        r == tastiness_name_of(rating),
{
    match rating {
        -3 => "hated",
        -2 => "horrible",
        -1 => "bad",
        0 => "neutral",
        1 => "good",
        2 => "great",
        3 => "favorite",
        _ => "unknown",
    }
}

} // verus!
