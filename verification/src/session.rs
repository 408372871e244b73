//! The decisions of a run: which mapping stands for each requested segment,
//! whether colors are on, what becomes of an incomplete raw dump, and the
//! text written for each selected segment once its contents were read.

use vstd::prelude::*;
use crate::cli::{ColorChoice, Config, OutputMode, Segment, segment_name, expected_kernel_name_of};
use crate::error::{AppError, is_message};
use crate::maps::Mapping;
use crate::memory::Dump;
use crate::text::{decimal, owned, push_decimal, push_str};
use crate::clocks::ClockReading;
use crate::output::{
    Palette, decoded_output, header_line, hexdump_text, missing_line, text_of, write_decoded, write_hexdump,
    write_mapping_header, write_missing,
};

verus! {

/// The index of the first mapping of `segment`, if there is one.
pub open spec fn first_mapping(mappings: Seq<Mapping>, segment: Segment) -> Option<int>
    decreases mappings.len(),
{
    if mappings.len() == 0 {
        None
    } else {
        match first_mapping(mappings.drop_last(), segment) {
            Some(i) => Some(i),
            None => if mappings.last().segment == segment {
                Some(mappings.len() - 1)
            } else {
                None
            },
        }
    }
}

/// The first requested segment that has no mapping, if there is one.
pub open spec fn first_missing(segments: Seq<Segment>, mappings: Seq<Mapping>) -> Option<Segment>
    decreases segments.len(),
{
    if segments.len() == 0 {
        None
    } else {
        match first_missing(segments.drop_last(), mappings) {
            Some(s) => Some(s),
            None => if first_mapping(mappings, segments.last()) is None {
                Some(segments.last())
            } else {
                None
            },
        }
    }
}

/// What is known of the first mapping of a segment: its index is that of
/// the first mapping with the segment, and no mapping before it has it.
pub proof fn lemma_first_mapping(mappings: Seq<Mapping>, segment: Segment)
    ensures
        match first_mapping(mappings, segment) {
            Some(i) => 0 <= i < mappings.len() && mappings[i].segment == segment && forall|j: int|
                0 <= j < i ==> mappings[j].segment != segment,
            None => forall|j: int| 0 <= j < mappings.len() ==> mappings[j].segment != segment,
        },
    decreases mappings.len(),
{
    if mappings.len() > 0 {
        let rest = mappings.drop_last();
        lemma_first_mapping(rest, segment);
        assert forall|j: int| 0 <= j < rest.len() implies rest[j] == mappings[j] by {}
    }
}

/// The message for a requested segment that is not mapped.
pub open spec fn missing_text(segment: Segment) -> Seq<char> {
    segment_name(segment) + " is not present in /proc/self/maps (expected "@ + expected_kernel_name_of(segment)
        + ")"@
}

/// The error for a requested segment that is not mapped.
pub fn missing_mapping_error(segment: Segment) -> (e: AppError)
    ensures
        is_message(e, missing_text(segment)),
{
    let mut text = owned(segment.name());
    push_str(&mut text, " is not present in /proc/self/maps (expected ");
    push_str(&mut text, segment.expected_kernel_name());
    push_str(&mut text, ")");
    AppError::Message(text)
}

/// Whether a selected entry is the requested segment with the first mapping
/// of it, or with none when it is not mapped.
pub open spec fn selects(entry: (Segment, Option<&Mapping>), segment: Segment, mappings: Seq<Mapping>) -> bool {
    &&& entry.0 == segment
    &&& match first_mapping(mappings, segment) {
        Some(k) => entry.1 == Some(&mappings[k]),
        None => entry.1 is None,
    }
}

/// Pairs each requested segment, in order, with the first mapping of it.
/// Segments that were named on the command line must all be mapped: the
/// first one that is not is reported.
pub fn select_mappings<'a>(config: &Config, mappings: &'a [Mapping]) -> (r: Result<
    Vec<(Segment, Option<&'a Mapping>)>,
    AppError,
>)
    ensures
        match r {
            Ok(selected) => {
                &&& !(config.explicit_segments && first_missing(config.segments@, mappings@) is Some)
                &&& selected@.len() == config.segments@.len()
                &&& forall|i: int|
                    0 <= i < selected@.len() ==> selects(
                        #[trigger] selected@[i],
                        config.segments@[i],
                        mappings@,
                    )
            },
            Err(e) => config.explicit_segments && match first_missing(config.segments@, mappings@) {
                Some(s) => is_message(e, missing_text(s)),
                None => false,
            },
        },
{
    let mut selected: Vec<(Segment, Option<&'a Mapping>)> = Vec::new();
    let mut missing: Option<Segment> = None;
    let n = config.segments.len();
    let mut i: usize = 0;
    while i < n
        invariant
            i <= n == config.segments@.len(),
            selected@.len() == i,
            forall|k: int|
                0 <= k < i ==> selects(#[trigger] selected@[k], config.segments@[k], mappings@),
            missing == first_missing(config.segments@.take(i as int), mappings@),
        decreases n - i,
    {
        let segment = config.segments[i];
        let mut found: Option<&'a Mapping> = None;
        let mut j: usize = 0;
        while j < mappings.len()
            invariant
                j <= mappings@.len(),
                match first_mapping(mappings@.take(j as int), segment) {
                    Some(k) => found == Some(&mappings@[k]) && 0 <= k < j,
                    None => found is None,
                },
            decreases mappings@.len() - j,
        {
            assert(mappings@.take(j + 1).drop_last() =~= mappings@.take(j as int));
            if found.is_none() && mappings[j].segment == segment {
                found = Some(&mappings[j]);
            }
            j = j + 1;
        }
        assert(mappings@.take(mappings@.len() as int) =~= mappings@);
        if found.is_none() && missing.is_none() {
            missing = Some(segment);
        }
        assert(config.segments@.take(i + 1).drop_last() =~= config.segments@.take(i as int));
        selected.push((segment, found));
        i = i + 1;
    }
    assert(config.segments@.take(n as int) =~= config.segments@);
    if config.explicit_segments {
        if let Some(segment) = missing {
            return Err(missing_mapping_error(segment));
        }
    }
    Ok(selected)
}

/// Whether colors are on: always, never, or when the output is a terminal
/// and `NO_COLOR` is not set.
pub fn color_enabled(choice: ColorChoice, terminal: bool, no_color: bool) -> (on: bool)
    ensures
        on == match choice {
            ColorChoice::Always => true,
            ColorChoice::Never => false,
            ColorChoice::Auto => terminal && !no_color,
        },
{
    match choice {
        ColorChoice::Always => true,
        ColorChoice::Never => false,
        ColorChoice::Auto => terminal && !no_color,
    }
}

/// The message that refuses an incomplete raw dump.
pub open spec fn incomplete_raw_text(segment: Segment, unreadable: nat) -> Seq<char> {
    segment_name(segment) + " contains "@ + decimal(unreadable) + " unreadable bytes; refusing an incomplete raw dump"@
}

/// The warning for a raw dump with unreadable bytes.
pub open spec fn zeroed_warning_text(segment: Segment, unreadable: nat) -> Seq<char> {
    "vdump: warning: "@ + decimal(unreadable) + " unreadable bytes in "@ + segment_name(segment)
        + " replaced with zeroes"@
}

/// What becomes of a raw dump: a complete one is written as it is; one with
/// unreadable bytes is refused when `strict`, else written with a warning.
pub fn raw_dump_check(segment: Segment, dump: &Dump, strict: bool) -> (r: Result<Option<String>, AppError>)
    requires
        dump.readable_count <= dump.bytes@.len(),
    ensures
        ({
            let unreadable = (dump.bytes@.len() - dump.readable_count) as nat;
            if unreadable == 0 {
                r == Ok::<Option<String>, AppError>(None)
            } else if strict {
                r matches Err(e) && is_message(e, incomplete_raw_text(segment, unreadable))
            } else {
                r matches Ok(Some(w)) && w@ == zeroed_warning_text(segment, unreadable)
            }
        }),
{
    let unreadable = dump.unreadable_count();
    if unreadable == 0 {
        return Ok(None);
    }
    if strict {
        let mut text = owned(segment.name());
        push_str(&mut text, " contains ");
        push_decimal(&mut text, unreadable as u64);
        push_str(&mut text, " unreadable bytes; refusing an incomplete raw dump");
        return Err(AppError::Message(text));
    }
    let mut warning = owned("vdump: warning: ");
    push_decimal(&mut warning, unreadable as u64);
    push_str(&mut warning, " unreadable bytes in ");
    push_str(&mut warning, segment.name());
    push_str(&mut warning, " replaced with zeroes");
    Ok(Some(warning))
}

/// The mapping whose bytes a raw dump writes: that of the one selected
/// segment, which must be mapped.
pub fn raw_mapping<'a>(selected: &Vec<(Segment, Option<&'a Mapping>)>) -> (r: Result<&'a Mapping, AppError>)
    requires
        selected@.len() >= 1,
    ensures
        match selected@[0].1 {
            Some(m) => r == Ok::<&Mapping, AppError>(m),
            None => r matches Err(e) && is_message(e, missing_text(selected@[0].0)),
        },
{
    let (segment, mapping) = selected[0];
    match mapping {
        Some(m) => Ok(m),
        None => Err(missing_mapping_error(segment)),
    }
}

/// The lines that list the selected segments: the header of each mapped
/// one, and a "not present" line for each other.
pub open spec fn listing_text(selected: Seq<(Segment, Option<&Mapping>)>, enabled: bool) -> Seq<char>
    decreases selected.len(),
{
    if selected.len() == 0 {
        Seq::empty()
    } else {
        listing_text(selected.drop_last(), enabled) + match selected.last().1 {
            Some(m) => header_line(*m, None, enabled),
            None => missing_line(selected.last().0, enabled),
        }
    }
}

/// Writes the listing of the selected segments.
pub fn write_listing(output: &mut String, selected: &Vec<(Segment, Option<&Mapping>)>, palette: &Palette)
    requires
        forall|i: int| 0 <= i < selected@.len() ==> ((#[trigger] selected@[i]).1 matches Some(m) ==> m.start <= m.end),
    ensures
        final(output)@ == old(output)@ + listing_text(selected@, palette.enabled),
{
    let ghost before = output@;
    let mut i: usize = 0;
    assert(selected@.take(0) =~= Seq::<(Segment, Option<&Mapping>)>::empty());
    while i < selected.len()
        invariant
            i <= selected@.len(),
            forall|k: int| 0 <= k < selected@.len() ==> ((#[trigger] selected@[k]).1 matches Some(m) ==> m.start <= m.end),
            output@ == before + listing_text(selected@.take(i as int), palette.enabled),
        decreases selected@.len() - i,
    {
        let (segment, mapping) = selected[i];
        match mapping {
            Some(m) => write_mapping_header(output, m, None, palette),
            None => write_missing(output, segment, palette),
        }
        assert(selected@.take(i + 1).drop_last() =~= selected@.take(i as int));
        i = i + 1;
    }
    assert(selected@.take(selected@.len() as int) =~= selected@);
}

/// Whether `text` is what is shown of one selected segment in the hex or
/// decoded mode: the header of its mapping followed by the dump or the
/// decoded fields, or a "not present" line when it is not mapped.
pub open spec fn entry_output(
    mode: OutputMode,
    width: usize,
    segment: Segment,
    found: Option<(&Mapping, &Dump)>,
    clocksource: Option<Seq<char>>,
    available: Option<Seq<char>>,
    clocks: Seq<ClockReading>,
    enabled: bool,
    text: Seq<char>,
) -> bool {
    match found {
        None => text == missing_line(segment, enabled),
        Some((m, d)) => {
            let head = header_line(*m, Some((d.bytes@.len() - d.readable_count) as nat), enabled);
            if mode == OutputMode::Hex {
                text == head + hexdump_text(m.start as int, d.bytes@, d.readable@, width as int, enabled)
            } else {
                &&& head.len() <= text.len()
                &&& text.take(head.len() as int) == head
                &&& decoded_output(*m, *d, clocksource, available, clocks, enabled, text.skip(head.len() as int))
            }
        },
    }
}

/// What separates the output of a segment from that of the one before it.
pub open spec fn separator(first: bool) -> Seq<char> {
    if first {
        Seq::empty()
    } else {
        "\n"@
    }
}

/// Writes what is shown of one selected segment in the hex or decoded
/// mode, once its mapping was read, after a blank line unless it is the
/// first.
pub fn write_entry(
    output: &mut String,
    first: bool,
    mode: OutputMode,
    width: usize,
    segment: Segment,
    found: Option<(&Mapping, &Dump)>,
    clocksource: Option<&str>,
    available: Option<&str>,
    clocks: &Vec<ClockReading>,
    palette: &Palette,
)
    requires
        mode == OutputMode::Hex || mode == OutputMode::Decoded,
        found matches Some((m, d)) ==> {
            &&& m.start <= m.end
            &&& d.wf()
            &&& m.start + d.bytes@.len() <= usize::MAX
            &&& d.bytes@.len() + width <= usize::MAX
            &&& (mode == OutputMode::Hex ==> width > 0)
        },
    ensures
        exists|text: Seq<char>|
            final(output)@ == old(output)@ + separator(first) + text && entry_output(
                mode,
                width,
                segment,
                found,
                text_of(clocksource),
                text_of(available),
                clocks@,
                palette.enabled,
                text,
            ),
{
    if !first {
        push_str(output, "\n");
    }
    let ghost start = output@;
    assert(start =~= old(output)@ + separator(first));
    match found {
        None => {
            write_missing(output, segment, palette);
            let ghost text = missing_line(segment, palette.enabled);
            assert(entry_output(mode, width, segment, found, text_of(clocksource), text_of(available), clocks@, palette.enabled, text));
        },
        Some((m, d)) => {
            proof {
                crate::memory::lemma_count_true_bound(d.readable@);
            }
            write_mapping_header(output, m, Some(d), palette);
            let ghost head = header_line(*m, Some((d.bytes@.len() - d.readable_count) as nat), palette.enabled);
            let ghost middle = output@;
            assert(middle == start + head);
            if mode == OutputMode::Hex {
                write_hexdump(output, m, d, width, palette);
                let ghost text = head + hexdump_text(m.start as int, d.bytes@, d.readable@, width as int, palette.enabled);
                assert(output@ =~= start + text);
                assert(entry_output(mode, width, segment, found, text_of(clocksource), text_of(available), clocks@, palette.enabled, text));
            } else {
                write_decoded(output, m, d, clocksource, available, clocks, palette);
                let ghost rest = choose|rest: Seq<char>|
                    output@ == middle + rest && decoded_output(
                        *m,
                        *d,
                        text_of(clocksource),
                        text_of(available),
                        clocks@,
                        palette.enabled,
                        rest,
                    );
                let ghost text = head + rest;
                assert(text.take(head.len() as int) =~= head);
                assert(text.skip(head.len() as int) =~= rest);
                assert(output@ =~= start + text);
                assert(entry_output(mode, width, segment, found, text_of(clocksource), text_of(available), clocks@, palette.enabled, text));
            }
        },
    }
}

} // verus!
