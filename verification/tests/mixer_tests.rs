use audio_engine::mixer::IdentityEffect;
use audio_engine::mixer::Mixer;
use audio_engine::mixer::MuteEffect;
use audio_engine::mixer::SampleRate;
use audio_engine::mixer::next_id;
use audio_engine::sample::UNIT_VOLUME;
use audio_engine::sample::sat_add_i16;
use audio_engine::sample::scale_sample;
use audio_engine::source::MemSource;
use audio_engine::source::SoundSource;
use audio_engine::source::Source;

fn mono(samples: Vec<i16>) -> Source {
    Source::Mem(MemSource::new(samples, 1, 44100))
}

#[test]
fn test_mem_source_fill_and_reset() {
    let mut src = MemSource::new(vec![1, 2, 3, 4], 1, 44100);
    assert_eq!(src.channels(), 1);
    assert_eq!(src.sample_rate(), 44100);
    let mut buf = vec![0i16; 4];
    assert_eq!(src.write_samples(&mut buf, 0), 4);
    assert_eq!(buf, vec![1, 2, 3, 4]);
    let mut buf2 = vec![9i16; 4];
    assert_eq!(src.write_samples(&mut buf2, 0), 0);
    assert_eq!(buf2, vec![9, 9, 9, 9]);
    src.reset();
    let mut buf3 = vec![0i16; 4];
    assert_eq!(src.write_samples(&mut buf3, 0), 4);
    assert_eq!(buf3, vec![1, 2, 3, 4]);
}

#[test]
fn test_silence_when_nothing_plays() {
    let mut mixer: Mixer<IdentityEffect> = Mixer::new(1, SampleRate(44100));
    let id = mixer.add_sound(mono(vec![1, 2, 3]), IdentityEffect);
    let _ = id;
    let mut buffer = vec![123i16; 6];
    let written = mixer.write_samples(&mut buffer);
    assert_eq!(written, 6);
    assert_eq!(buffer, vec![0, 0, 0, 0, 0, 0]);
}

#[test]
fn test_single_sound_identity_passthrough() {
    let mut mixer: Mixer<IdentityEffect> = Mixer::new(1, SampleRate(44100));
    let id = mixer.add_sound(mono(vec![10, -20, 30, -40]), IdentityEffect);
    mixer.play(id);
    let mut buffer = vec![0i16; 4];
    assert_eq!(mixer.write_samples(&mut buffer), 4);
    assert_eq!(buffer, vec![10, -20, 30, -40]);
}

#[test]
fn test_two_sounds_saturate_high() {
    let mut mixer: Mixer<IdentityEffect> = Mixer::new(1, SampleRate(44100));
    let a = mixer.add_sound(mono(vec![30000, 30000]), IdentityEffect);
    let b = mixer.add_sound(mono(vec![30000, 30000]), IdentityEffect);
    mixer.play(a);
    mixer.play(b);
    let mut buffer = vec![0i16; 2];
    mixer.write_samples(&mut buffer);
    assert_eq!(buffer, vec![32767, 32767]);
}

#[test]
fn test_two_sounds_saturate_low() {
    let mut mixer: Mixer<IdentityEffect> = Mixer::new(1, SampleRate(44100));
    let a = mixer.add_sound(mono(vec![-30000]), IdentityEffect);
    let b = mixer.add_sound(mono(vec![-30000]), IdentityEffect);
    mixer.play(a);
    mixer.play(b);
    let mut buffer = vec![0i16; 1];
    mixer.write_samples(&mut buffer);
    assert_eq!(buffer, vec![-32768]);
}

#[test]
fn test_looping_fills_whole_buffer() {
    let mut mixer: Mixer<IdentityEffect> = Mixer::new(1, SampleRate(44100));
    let id = mixer.add_sound(mono(vec![1, 2, 3]), IdentityEffect);
    mixer.set_loop(id, true);
    mixer.play(id);
    let mut buffer = vec![0i16; 7];
    assert_eq!(mixer.write_samples(&mut buffer), 7);
    assert_eq!(buffer, vec![1, 2, 3, 1, 2, 3, 1]);
    let mut buffer2 = vec![0i16; 4];
    mixer.write_samples(&mut buffer2);
    assert_eq!(buffer2, vec![2, 3, 1, 2]);
}

#[test]
fn test_pending_drop_plays_out_then_disappears() {
    let mut mixer: Mixer<IdentityEffect> = Mixer::new(1, SampleRate(44100));
    let id = mixer.add_sound(mono(vec![5, 6]), IdentityEffect);
    mixer.play(id);
    mixer.drop_sound(id);
    assert_eq!(mixer.sounds.len(), 1);
    let mut buffer = vec![0i16; 4];
    mixer.write_samples(&mut buffer);
    assert_eq!(buffer, vec![5, 6, 0, 0]);
    assert_eq!(mixer.sounds.len(), 0);
    assert_eq!(mixer.playing, 0);
    let mut buffer2 = vec![9i16; 2];
    mixer.write_samples(&mut buffer2);
    assert_eq!(buffer2, vec![0, 0]);
}

#[test]
fn test_finished_sound_is_kept_and_replayable() {
    let mut mixer: Mixer<IdentityEffect> = Mixer::new(1, SampleRate(44100));
    let id = mixer.add_sound(mono(vec![5, 6]), IdentityEffect);
    mixer.play(id);
    let mut buffer = vec![0i16; 4];
    mixer.write_samples(&mut buffer);
    assert_eq!(buffer, vec![5, 6, 0, 0]);
    assert_eq!(mixer.sounds.len(), 1);
    assert_eq!(mixer.playing, 0);
    mixer.play(id);
    let mut buffer2 = vec![0i16; 2];
    mixer.write_samples(&mut buffer2);
    assert_eq!(buffer2, vec![5, 6]);
}

#[test]
fn test_stop_then_play_restarts_bit_identical() {
    let mut mixer: Mixer<IdentityEffect> = Mixer::new(1, SampleRate(44100));
    let id = mixer.add_sound(mono(vec![1, 2, 3, 4]), IdentityEffect);
    mixer.play(id);
    let mut first = vec![0i16; 2];
    mixer.write_samples(&mut first);
    assert_eq!(first, vec![1, 2]);
    mixer.stop(id);
    mixer.play(id);
    let mut second = vec![0i16; 2];
    mixer.write_samples(&mut second);
    assert_eq!(second, first);
}

#[test]
fn test_pause_retains_position() {
    let mut mixer: Mixer<IdentityEffect> = Mixer::new(1, SampleRate(44100));
    let id = mixer.add_sound(mono(vec![1, 2, 3, 4]), IdentityEffect);
    mixer.play(id);
    let mut buffer = vec![0i16; 2];
    mixer.write_samples(&mut buffer);
    assert_eq!(buffer, vec![1, 2]);
    mixer.pause(id);
    let mut silent = vec![7i16; 2];
    mixer.write_samples(&mut silent);
    assert_eq!(silent, vec![0, 0]);
    mixer.play(id);
    let mut rest = vec![0i16; 2];
    mixer.write_samples(&mut rest);
    assert_eq!(rest, vec![3, 4]);
}

#[test]
fn test_partition_tracks_play_pause_stop() {
    let mut mixer: Mixer<IdentityEffect> = Mixer::new(1, SampleRate(44100));
    let a = mixer.add_sound(mono(vec![1]), IdentityEffect);
    let b = mixer.add_sound(mono(vec![2]), IdentityEffect);
    let c = mixer.add_sound(mono(vec![3]), IdentityEffect);
    assert_eq!(mixer.playing, 0);
    mixer.play(a);
    mixer.play(b);
    assert_eq!(mixer.playing, 2);
    let prefix: Vec<u64> = mixer.sounds[..mixer.playing].iter().map(|e| e.id).collect();
    assert!(prefix.contains(&a));
    assert!(prefix.contains(&b));
    assert!(!prefix.contains(&c));
    mixer.pause(a);
    assert_eq!(mixer.playing, 1);
    assert_eq!(mixer.sounds[0].id, b);
    mixer.stop(b);
    assert_eq!(mixer.playing, 0);
    mixer.play(a);
    mixer.play(a);
    assert_eq!(mixer.playing, 1);
}

#[test]
fn test_unknown_id_is_silent_no_op() {
    let mut mixer: Mixer<IdentityEffect> = Mixer::new(1, SampleRate(44100));
    let id = mixer.add_sound(mono(vec![1, 2]), IdentityEffect);
    mixer.play(9999);
    mixer.pause(9999);
    mixer.stop(9999);
    mixer.reset(9999);
    mixer.set_volume(9999, 0);
    mixer.set_loop(9999, true);
    mixer.drop_sound(9999);
    mixer.update_effect(9999, IdentityEffect);
    assert_eq!(mixer.playing, 0);
    assert_eq!(mixer.sounds.len(), 1);
    assert_eq!(mixer.sounds[0].id, id);
    assert!(!mixer.sounds[0].looping);
    assert!(!mixer.sounds[0].pending_drop);
    assert_eq!(mixer.sounds[0].volume, UNIT_VOLUME);
}

#[test]
fn test_volume_scales_samples() {
    let mut mixer: Mixer<IdentityEffect> = Mixer::new(1, SampleRate(44100));
    let id = mixer.add_sound(mono(vec![1000, -1000]), IdentityEffect);
    mixer.set_volume(id, 16383);
    mixer.play(id);
    let mut buffer = vec![0i16; 2];
    mixer.write_samples(&mut buffer);
    assert_eq!(buffer, vec![499, -499]);
}

#[test]
fn test_mute_effect_silences() {
    let mut mixer: Mixer<MuteEffect> = Mixer::new(1, SampleRate(44100));
    let id = mixer.add_sound(mono(vec![1000, 2000]), MuteEffect);
    mixer.play(id);
    let mut buffer = vec![0i16; 2];
    mixer.write_samples(&mut buffer);
    assert_eq!(buffer, vec![0, 0]);
}

#[test]
fn test_set_config_unchanged_is_identity() {
    let mut mixer: Mixer<IdentityEffect> = Mixer::new(1, SampleRate(44100));
    let id = mixer.add_sound(mono(vec![1, 2, 3, 4]), IdentityEffect);
    mixer.play(id);
    let mut buffer = vec![0i16; 2];
    mixer.write_samples(&mut buffer);
    mixer.set_config(1, SampleRate(44100));
    let mut rest = vec![0i16; 2];
    mixer.write_samples(&mut rest);
    assert_eq!(rest, vec![3, 4]);
    assert!(matches!(mixer.sounds[0].data, Source::Mem(_)));
}

#[test]
fn test_set_config_rate_keeps_position_and_content() {
    let mut mixer: Mixer<IdentityEffect> = Mixer::new(1, SampleRate(44100));
    let id = mixer.add_sound(mono(vec![1, 2, 3, 4]), IdentityEffect);
    mixer.play(id);
    let mut buffer = vec![0i16; 2];
    mixer.write_samples(&mut buffer);
    assert_eq!(buffer, vec![1, 2]);
    mixer.set_config(1, SampleRate(48000));
    assert_eq!(mixer.sample_rate, SampleRate(48000));
    assert!(matches!(mixer.sounds[0].data, Source::Rate { .. }));
    let mut rest = vec![0i16; 2];
    mixer.write_samples(&mut rest);
    assert_eq!(rest, vec![3, 4]);
}

#[test]
fn test_set_config_channels_reframes() {
    let mut mixer: Mixer<IdentityEffect> = Mixer::new(1, SampleRate(44100));
    let id = mixer.add_sound(mono(vec![7, 8]), IdentityEffect);
    mixer.set_config(2, SampleRate(44100));
    assert!(matches!(mixer.sounds[0].data, Source::Channels { .. }));
    mixer.play(id);
    let mut buffer = vec![0i16; 4];
    mixer.write_samples(&mut buffer);
    assert_eq!(buffer, vec![7, 7, 8, 8]);
}

#[test]
fn test_set_config_both_wraps_channel_then_rate() {
    let mut mixer: Mixer<IdentityEffect> = Mixer::new(1, SampleRate(44100));
    let id = mixer.add_sound(mono(vec![7, 8]), IdentityEffect);
    mixer.set_config(2, SampleRate(48000));
    assert!(
        matches!(&mixer.sounds[0].data, Source::Rate { inner, .. }
            if matches!(**inner, Source::Channels { .. }))
    );
    mixer.play(id);
    let mut buffer = vec![0i16; 4];
    mixer.write_samples(&mut buffer);
    assert_eq!(buffer, vec![7, 7, 8, 8]);
}

#[test]
fn test_sample_arithmetic() {
    assert_eq!(sat_add_i16(30000, 30000), 32767);
    assert_eq!(sat_add_i16(-30000, -30000), -32768);
    assert_eq!(sat_add_i16(100, -200), -100);
    assert_eq!(scale_sample(100, UNIT_VOLUME), 100);
    assert_eq!(scale_sample(-32768, UNIT_VOLUME), -32768);
    assert_eq!(scale_sample(100, 16383), 49);
    assert_eq!(scale_sample(-100, 16383), -49);
    assert_eq!(scale_sample(1000, 65534), 2000);
    assert_eq!(scale_sample(30000, 65534), 32767);
}

#[test]
fn test_next_id_is_monotonic() {
    let mut counter: u64 = 0;
    assert_eq!(next_id(&mut counter), 0);
    assert_eq!(next_id(&mut counter), 1);
    assert_eq!(counter, 2);
    let mut mixer: Mixer<IdentityEffect> = Mixer::new(1, SampleRate(44100));
    let a = mixer.add_sound(mono(vec![1]), IdentityEffect);
    let b = mixer.add_sound(mono(vec![2]), IdentityEffect);
    let c = mixer.add_sound(mono(vec![3]), IdentityEffect);
    assert!(a < b && b < c);
}

#[test]
fn test_update_effect_applies() {
    let mut mixer: Mixer<MuteEffect> = Mixer::new(1, SampleRate(44100));
    let id = mixer.add_sound(mono(vec![1000]), MuteEffect);
    mixer.update_effect(id, MuteEffect);
    mixer.play(id);
    let mut buffer = vec![0i16; 1];
    mixer.write_samples(&mut buffer);
    assert_eq!(buffer, vec![0]);
}

#[test]
fn test_stereo_source_interleaved() {
    let mut mixer: Mixer<IdentityEffect> = Mixer::new(2, SampleRate(44100));
    let id = mixer.add_sound(
        Source::Mem(MemSource::new(vec![1, -1, 2, -2], 2, 44100)),
        IdentityEffect,
    );
    mixer.play(id);
    let mut buffer = vec![0i16; 4];
    mixer.write_samples(&mut buffer);
    assert_eq!(buffer, vec![1, -1, 2, -2]);
}

#[test]
fn test_mix_accumulates_over_buffer_contents() {
    let mut mixer: Mixer<IdentityEffect> = Mixer::new(1, SampleRate(44100));
    let id = mixer.add_sound(mono(vec![10, 20]), IdentityEffect);
    mixer.play(id);
    let mut buffer = vec![5i16, -5];
    mixer.write_samples(&mut buffer);
    assert_eq!(buffer, vec![15, 15]);
}

#[test]
fn test_set_config_stereo_to_mono() {
    let mut mixer: Mixer<IdentityEffect> = Mixer::new(2, SampleRate(44100));
    let id = mixer.add_sound(
        Source::Mem(MemSource::new(vec![1, -1, 2, -2], 2, 44100)),
        IdentityEffect,
    );
    mixer.set_config(1, SampleRate(44100));
    mixer.play(id);
    let mut buffer = vec![0i16; 2];
    mixer.write_samples(&mut buffer);
    assert_eq!(buffer, vec![1, 2]);
}

#[test]
fn test_set_config_twice_nests_adapters() {
    let mut mixer: Mixer<IdentityEffect> = Mixer::new(1, SampleRate(44100));
    let id = mixer.add_sound(mono(vec![4, 5]), IdentityEffect);
    mixer.set_config(2, SampleRate(44100));
    mixer.set_config(1, SampleRate(44100));
    mixer.play(id);
    let mut buffer = vec![0i16; 2];
    mixer.write_samples(&mut buffer);
    assert_eq!(buffer, vec![4, 5]);
}

#[test]
fn test_reset_keeps_play_state() {
    let mut mixer: Mixer<IdentityEffect> = Mixer::new(1, SampleRate(44100));
    let id = mixer.add_sound(mono(vec![1, 2, 3, 4]), IdentityEffect);
    mixer.play(id);
    let mut buffer = vec![0i16; 2];
    mixer.write_samples(&mut buffer);
    assert_eq!(buffer, vec![1, 2]);
    mixer.reset(id);
    assert_eq!(mixer.playing, 1);
    let mut again = vec![0i16; 2];
    mixer.write_samples(&mut again);
    assert_eq!(again, vec![1, 2]);
}
