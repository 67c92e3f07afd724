//! Stream vocabulary: the sample-rate table, rate resolution and the
//! subframe count of each channel assignment.

use flac_lite::Error;
use flac_lite::format::{Blocksize, ChannelConfig, SampleRate};

#[test]
fn from_flac_code_covers_the_self_contained_table() {
    let cases: &[(u8, SampleRate)] = &[
        (0b0000, SampleRate::FromStreamDefault),
        (0b0001, SampleRate::Explicit(88_200)),
        (0b0010, SampleRate::Explicit(176_400)),
        (0b0011, SampleRate::Explicit(192_000)),
        (0b0100, SampleRate::Explicit(8_000)),
        (0b0101, SampleRate::Explicit(16_000)),
        (0b0110, SampleRate::Explicit(22_050)),
        (0b0111, SampleRate::Explicit(24_000)),
        (0b1000, SampleRate::Explicit(32_000)),
        (0b1001, SampleRate::Explicit(44_100)),
        (0b1010, SampleRate::Explicit(48_000)),
        (0b1011, SampleRate::Explicit(96_000)),
    ];
    for &(code, want) in cases {
        assert_eq!(
            SampleRate::from_flac_code(code),
            Ok(want),
            "code {code:#06b}"
        );
    }
}

#[test]
fn format_refuses_codes_that_carry_a_value() {
    for code in 0b1100u8..=0b1111 {
        assert_eq!(
            SampleRate::from_flac_code(code),
            Err(Error::InvalidField),
            "code {code:#06b} must not resolve code-only"
        );
    }
}

#[test]
fn hz_only_consults_the_default_for_from_stream() {
    assert_eq!(SampleRate::Explicit(32_000).hz(65_536), 32_000);
    assert_eq!(SampleRate::Explicit(56_000).hz(999), 56_000);
    assert_eq!(SampleRate::FromStreamDefault.hz(65_536), 65_536);
}

#[test]
fn subframe_count_matches_the_channel_table() {
    assert_eq!(
        ChannelConfig::Independent { channels: 1 }.subframe_count(),
        1
    );
    assert_eq!(
        ChannelConfig::Independent { channels: 2 }.subframe_count(),
        2
    );
    for cfg in [
        ChannelConfig::MidSide,
        ChannelConfig::LeftSide,
        ChannelConfig::RightSide,
    ] {
        assert_eq!(cfg.subframe_count(), 2, "{cfg:?}");
    }
}

#[test]
fn blocksize_samples_is_the_count_or_invalid() {
    assert_eq!(Blocksize::Explicit(2048).samples(), Ok(2048));
    assert_eq!(Blocksize::Explicit(0).samples(), Ok(0));
    assert_eq!(Blocksize::Explicit(u16::MAX).samples(), Ok(65535));
    assert_eq!(Blocksize::Invalid.samples(), Err(Error::InvalidField));
}

#[test]
fn subframe_count_of_an_odd_independent_layout_is_its_channel_count() {
    assert_eq!(ChannelConfig::Independent { channels: 0 }.subframe_count(), 0);
    assert_eq!(ChannelConfig::Independent { channels: 7 }.subframe_count(), 7);
}
