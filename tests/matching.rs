use audio_monitoring::accumulator::{clipped_weight, ScoreAccumulator};
use audio_monitoring::config::{MatchConfig, SCALE};
use audio_monitoring::database::{FingerprintParams, ReferenceDatabase, Segment};
use audio_monitoring::decision::{elapsed_millis, finalize_report, rank_top, scale_results, Match, MatchLessInfo};
use audio_monitoring::matcher::{best_match, closest_distance};
use audio_monitoring::session::{match_stream, CoordinatorState, MatchSession};
use audio_monitoring::similarity::{distance_cosine, dot_product, magnitude_sq};

fn params(height: u32) -> FingerprintParams {
    FingerprintParams {
        resample_rate: 22050,
        fft_size: 1024,
        fft_overlap: 512,
        spectrogram_height: height,
        spectrogram_max_frequency: 8000,
    }
}

fn two_axis_db() -> ReferenceDatabase {
    ReferenceDatabase {
        build_settings: params(2),
        segments: vec![
            Segment { title: "songs/first.wav".to_string(), vectors: vec![vec![1, 0]] },
            Segment { title: "songs/second.wav".to_string(), vectors: vec![vec![0, 1]] },
        ],
    }
}

fn config(n_results: usize) -> MatchConfig {
    let mut cfg = MatchConfig::standard();
    cfg.n_results = n_results;
    cfg
}

#[test]
fn dot_and_magnitude() {
    assert_eq!(dot_product(&[1, 2, 3], &[4, -5, 6]), 12);
    assert_eq!(magnitude_sq(&[3, 4]), 25);
    assert_eq!(magnitude_sq(&[]), 0);
}

#[test]
fn distance_of_vector_to_itself_is_zero() {
    assert_eq!(distance_cosine(&[1, 0], &[1, 0]), Some(0));
    assert_eq!(distance_cosine(&[3, 4, -7], &[3, 4, -7]), Some(0));
    assert_eq!(distance_cosine(&[-32768, 32767], &[-32768, 32767]), Some(0));
}

#[test]
fn distance_range_endpoints() {
    assert_eq!(distance_cosine(&[1, 0], &[0, 1]), Some(SCALE));
    assert_eq!(distance_cosine(&[1, 0], &[-1, 0]), Some(2 * SCALE));
    assert_eq!(distance_cosine(&[3, 4], &[4, 3]), Some(40_000));
    assert_eq!(distance_cosine(&[3, 4], &[-4, -3]), Some(1_960_000));
}

#[test]
fn zero_vector_is_sentinel() {
    assert_eq!(distance_cosine(&[0, 0], &[1, 0]), None);
    assert_eq!(distance_cosine(&[1, 0], &[0, 0]), None);
    assert_eq!(distance_cosine(&[], &[]), None);
}

#[test]
fn zero_frame_has_no_winner() {
    let db = two_axis_db();
    assert_eq!(best_match(&db, &[0, 0]), None);
}

#[test]
fn zero_reference_is_never_the_winner() {
    let db = ReferenceDatabase {
        build_settings: params(2),
        segments: vec![
            Segment { title: "silent".to_string(), vectors: vec![vec![0, 0]] },
            Segment { title: "far".to_string(), vectors: vec![vec![-1, 0]] },
        ],
    };
    assert_eq!(best_match(&db, &[1, 0]), Some((1, 2 * SCALE)));
}

#[test]
fn winner_is_closest_segment_first_on_ties() {
    let db = ReferenceDatabase {
        build_settings: params(2),
        segments: vec![
            Segment { title: "a".to_string(), vectors: vec![vec![0, 1], vec![3, 4]] },
            Segment { title: "b".to_string(), vectors: vec![vec![4, 3]] },
            Segment { title: "c".to_string(), vectors: vec![] },
        ],
    };
    assert_eq!(closest_distance(&db.segments[0], &[4, 3], 2), Some(40_000));
    assert_eq!(closest_distance(&db.segments[2], &[4, 3], 2), None);
    assert_eq!(best_match(&db, &[4, 3]), Some((1, 0)));
    assert_eq!(best_match(&db, &[1, 1]), Some((0, 10_051)));
}

#[test]
fn clipped_weight_values() {
    assert_eq!(clipped_weight(950_000, 40_000), 910_000);
    assert_eq!(clipped_weight(950_000, 950_000), 0);
    assert_eq!(clipped_weight(950_000, 2_000_000), 0);
}

#[test]
fn accumulator_credits_only_the_winner() {
    let mut acc = ScoreAccumulator::new(3);
    assert_eq!(acc.entry(1), None);
    acc.record(Some((1, 50_000)), 950_000);
    acc.record(Some((1, 2_000_000)), 950_000);
    acc.record(None, 950_000);
    acc.record(Some((7, 0)), 950_000);
    assert_eq!(acc.entry(1), Some(900_000));
    assert_eq!(acc.score(0), 0);
    assert_eq!(acc.entry(0), None);
    acc.record(Some((2, 0)), u64::MAX);
    acc.record(Some((2, 0)), u64::MAX);
    assert_eq!(acc.score(2), u64::MAX);
}

#[test]
fn scores_never_decrease() {
    let mut acc = ScoreAccumulator::new(2);
    let frames = [Some((0, 10)), Some((1, 990_000)), Some((0, 980_000)), None, Some((1, 5))];
    let mut last = [0u64; 2];
    for m in frames {
        acc.record(m, 950_000);
        for i in 0..2 {
            assert!(acc.score(i) >= last[i]);
            last[i] = acc.score(i);
        }
    }
    assert_eq!(last, [949_990, 949_995]);
}

#[test]
fn ranking_orders_by_score_then_index() {
    let mut acc = ScoreAccumulator::new(4);
    acc.record(Some((3, 0)), 500);
    acc.record(Some((1, 0)), 500);
    acc.record(Some((2, 0)), 900);
    assert_eq!(rank_top(&acc, 2), vec![2, 1]);
    assert_eq!(rank_top(&acc, 10), vec![2, 1, 3]);
    assert_eq!(rank_top(&acc, 0), Vec::<usize>::new());
}

#[test]
fn scaling_divides_by_subset_sum() {
    assert_eq!(scale_results(&[1, 3]), Some(vec![250_000, 750_000]));
    assert_eq!(scale_results(&[1, 1, 1]), Some(vec![333_333, 333_333, 333_333]));
    assert_eq!(scale_results(&[5]), Some(vec![SCALE]));
    assert_eq!(scale_results(&[u64::MAX, u64::MAX]), Some(vec![500_000, 500_000]));
}

#[test]
fn scaling_zero_sum_is_undefined() {
    assert_eq!(scale_results(&[]), None);
    assert_eq!(scale_results(&[0, 0]), None);
}

#[test]
fn elapsed_time_from_bytes() {
    let cfg = MatchConfig::standard();
    assert_eq!(elapsed_millis(176_400, &cfg), 1000);
    assert_eq!(elapsed_millis(4410, &cfg), 25);
    assert_eq!(elapsed_millis(0, &cfg), 0);
}

#[test]
fn ten_identical_frames_scenario() {
    let db = two_axis_db();
    let frames = vec![vec![1i16, 0]; 10];
    let report = match_stream(&db, &frames, None, config(1), 0);
    assert_eq!(report.matches.len(), 1);
    assert_eq!(report.matches[0].title, "songs/first.wav");
    assert_eq!(report.matches[0].score, 9_500_000);
    assert_eq!(report.matches[0].scaled_prob, SCALE);
    assert!(report.probabilities_defined);
    assert!(report.threshold_passed);

    let mut session = MatchSession::new(&db, config(1));
    for f in &frames {
        session.process_frame(&db, f);
    }
    assert_eq!(session.score(0), 9_500_000);
    assert_eq!(session.score(1), 0);
}

#[test]
fn empty_scores_give_empty_report() {
    let db = two_axis_db();
    let frames = vec![vec![1i16, 0]; 3];
    let report = match_stream(&db, &frames, Some(0), config(2), 0);
    assert!(report.matches.is_empty());
    assert!(!report.probabilities_defined);
    assert!(!report.threshold_passed);
    assert_eq!(report.total_probability, 0);

    let report = match_stream(&db, &Vec::new(), None, config(2), 0);
    assert!(report.matches.is_empty());
    assert!(!report.probabilities_defined);
}

#[test]
fn zero_scores_are_flagged_undefined() {
    let db = two_axis_db();
    let frames = vec![vec![-1i16, 0], vec![0, -1]];
    let report = match_stream(&db, &frames, None, config(2), 0);
    assert_eq!(report.matches.len(), 2);
    assert_eq!(report.matches[0].score, 0);
    assert_eq!(report.matches[0].scaled_prob, 0);
    assert!(!report.probabilities_defined);
    assert!(!report.threshold_passed);
}

#[test]
fn split_decision_misses_threshold() {
    let db = two_axis_db();
    let frames = vec![vec![1i16, 0], vec![0, 1], vec![1, 0]];
    let report = match_stream(&db, &frames, None, config(2), 352_800);
    assert_eq!(report.matches[0].title, "songs/first.wav");
    assert_eq!(report.matches[0].score, 1_900_000);
    assert_eq!(report.matches[1].score, 950_000);
    assert_eq!(report.matches[0].scaled_prob, 666_666);
    assert_eq!(report.matches[1].scaled_prob, 333_333);
    assert_eq!(report.total_probability, 999_999);
    assert!(report.threshold_passed);
    assert_eq!(report.elapsed_millis, 2000);

    let report = match_stream(&db, &frames, None, config(1), 0);
    assert_eq!(report.matches.len(), 1);
    assert_eq!(report.total_probability, SCALE);
}

#[test]
fn rerun_gives_identical_report() {
    let db = two_axis_db();
    let frames = vec![vec![3i16, 4], vec![4, 3], vec![0, 0], vec![1, 9]];
    let a = match_stream(&db, &frames, None, config(2), 1234);
    let b = match_stream(&db, &frames, None, config(2), 1234);
    assert_eq!(a.matches.len(), b.matches.len());
    for (x, y) in a.matches.iter().zip(b.matches.iter()) {
        assert_eq!(x.title, y.title);
        assert_eq!(x.score, y.score);
        assert_eq!(x.scaled_prob, y.scaled_prob);
    }
    assert_eq!(a.total_probability, b.total_probability);
    assert_eq!(a.threshold_passed, b.threshold_passed);
}

#[test]
fn cancellation_equals_truncated_stream() {
    let db = two_axis_db();
    let frames = vec![vec![1i16, 0], vec![0, 1], vec![0, 1], vec![0, 1]];
    for k in 0..=frames.len() {
        let cut = match_stream(&db, &frames, Some(k), config(2), 0);
        let short = match_stream(&db, &frames[..k].to_vec(), None, config(2), 0);
        assert_eq!(cut.matches.len(), short.matches.len());
        for (x, y) in cut.matches.iter().zip(short.matches.iter()) {
            assert_eq!(x.title, y.title);
            assert_eq!(x.score, y.score);
            assert_eq!(x.scaled_prob, y.scaled_prob);
        }
    }
    let cut = match_stream(&db, &frames, Some(1), config(2), 0);
    assert_eq!(cut.matches.len(), 1);
    assert_eq!(cut.matches[0].title, "songs/first.wav");
}

#[test]
fn session_lifecycle() {
    let db = two_axis_db();
    let mut session = MatchSession::new(&db, config(2));
    assert_eq!(session.state(), CoordinatorState::Running);
    assert!(session.on_frame(&db, &[1, 0], false));
    assert!(!session.on_frame(&db, &[0, 1], true));
    assert_eq!(session.state(), CoordinatorState::Cancelling);
    session.cancel();
    assert_eq!(session.state(), CoordinatorState::Cancelling);
    let report = session.finish(&db, 0);
    assert_eq!(session.state(), CoordinatorState::Finalized);
    session.cancel();
    assert_eq!(session.state(), CoordinatorState::Finalized);
    assert_eq!(report.matches.len(), 2);
}

#[test]
fn finalize_reads_titles_from_database() {
    let db = two_axis_db();
    let mut acc = ScoreAccumulator::new(2);
    acc.record(Some((1, 0)), 950_000);
    let report = finalize_report(&db, &acc, &config(2), 0);
    assert_eq!(report.matches.len(), 1);
    assert_eq!(report.matches[0].title, "songs/second.wav");
    assert_eq!(db.title(1), "songs/second.wav");
    assert_eq!(db.len(), 2);
}

#[test]
fn match_less_info_keeps_file_name() {
    let m = Match { title: "music/set/track.wav".to_string(), score: 7, scaled_prob: 1 };
    let info = MatchLessInfo::from(&m);
    assert_eq!(info.title, "track.wav");
    assert_eq!(info.score, 7);
    let m = Match { title: "plain".to_string(), score: 0, scaled_prob: 0 };
    assert_eq!(MatchLessInfo::from(&m).title, "plain");
    let m = Match { title: "dir/".to_string(), score: 0, scaled_prob: 0 };
    assert_eq!(MatchLessInfo::from(&m).title, "");
    let m = Match { title: "é/ü".to_string(), score: 0, scaled_prob: 0 };
    assert_eq!(MatchLessInfo::from(&m).title, "ü");
}
