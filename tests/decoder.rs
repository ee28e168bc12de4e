use basecall_decoder::beam::{cut_extensions, merge_candidates, rank_groups, BeamSearch, Candidate};
use basecall_decoder::config::{BIAS_OFFSET, ROW_WIDTH};
use basecall_decoder::context::Context;
use basecall_decoder::greedy::GreedyDecoder;
use basecall_decoder::order::{first_max, order_key};
use basecall_decoder::tables::{check_feature_width, required_rows, ConfigError, TableLayout};
use basecall_decoder::text::{quality_char, quality_to_string, symbols_to_string};

fn key(x: f32) -> u32 {
    order_key(x.to_bits())
}

fn keys5(p: [f32; 5]) -> [u32; 5] {
    [key(p[0]), key(p[1]), key(p[2]), key(p[3]), key(p[4])]
}

fn context_after(bases: &[u8]) -> Context {
    let mut c = Context::initial();
    for &b in bases {
        c = c.advance(b);
    }
    c
}

/// One tick of beam search over given probabilities, masses kept here.
fn tick(
    search: &mut BeamSearch,
    masses: &mut Vec<(f32, f32)>,
    probs: &[[f32; 5]],
    cut: f32,
    size: usize,
) {
    let keys: Vec<[u32; 5]> = probs.iter().map(|p| keys5(*p)).collect();
    let admitted = cut_extensions(&keys, key(cut));
    let cands = search.expand(&admitted);
    let plan = merge_candidates(&cands);
    let mut merged = vec![(0.0f32, 0.0f32); plan.nodes.len()];
    for (k, c) in cands.iter().enumerate() {
        let (base, blank) = masses[c.source];
        let total = base + blank;
        let g = plan.group[k];
        if c.symbol == 0 {
            merged[g].1 += total * probs[c.source][0];
        } else {
            merged[g].0 += total * probs[c.source][c.symbol as usize];
        }
    }
    let totals: Vec<u32> = merged.iter().map(|m| key(m.0 + m.1)).collect();
    let ranked = search.select(&plan.nodes, &totals, size);
    let top = merged[ranked[0]].0 + merged[ranked[0]].1;
    *masses = ranked.iter().map(|&g| (merged[g].0 / top, merged[g].1 / top)).collect();
}

fn run_beam(steps: &[[f32; 5]], cut: f32, size: usize) -> String {
    let mut search = BeamSearch::new();
    let mut masses = vec![(0.0f32, 1.0f32)];
    for p in steps {
        let probs: Vec<[f32; 5]> = (0..search.live_count()).map(|_| *p).collect();
        tick(&mut search, &mut masses, &probs, cut, size);
    }
    search.best_sequence()
}

fn run_greedy(steps: &[[f32; 5]]) -> String {
    let mut g = GreedyDecoder::new();
    for p in steps {
        g.step(&keys5(*p));
    }
    g.labels()
}

#[test]
fn context_state_formula() {
    let c = context_after(&[2, 3]);
    assert_eq!(c.state, 1 * 4 + 2);
    assert_eq!(c.observed, 2);
    assert_eq!(c.bucket(), 2);
    let t = context_after(&[4, 4, 4, 4, 4, 4, 4]);
    assert_eq!(t.state, 1023);
    assert_eq!(t.observed, 6);
}

#[test]
fn context_state_forgets_beyond_five_bases() {
    let a = context_after(&[1, 2, 3, 4, 1, 2]);
    let b = context_after(&[4, 4, 2, 3, 4, 1, 2]);
    assert_eq!(a.state, b.state);
    // a difference five bases back still shows
    let c = context_after(&[1, 1, 1, 1, 1]);
    let d = context_after(&[2, 1, 1, 1, 1]);
    assert_ne!(c.state, d.state);
    assert!(c.state < 1024 && d.state < 1024);
}

#[test]
fn rows_needed_by_bucket() {
    let want = [1usize, 4, 16, 64, 256, 1024, 1024];
    for b in 0..7 {
        assert_eq!(required_rows(b), want[b]);
    }
}

fn good_shapes() -> Vec<(usize, usize)> {
    (0..7).map(|b| (required_rows(b), ROW_WIDTH)).collect()
}

#[test]
fn validate_accepts_fitting_tables() {
    let l = TableLayout::validate(&good_shapes()).unwrap();
    assert_eq!(l.rows_of(5), 1024);
    assert_eq!(l.rows_of(0), 1);
}

#[test]
fn validate_rejects_wrong_count() {
    let mut s = good_shapes();
    s.pop();
    assert_eq!(TableLayout::validate(&s).unwrap_err(), ConfigError::TableCount { found: 6 });
}

#[test]
fn validate_rejects_wrong_width() {
    let mut s = good_shapes();
    s[3].1 = ROW_WIDTH + 11;
    assert_eq!(
        TableLayout::validate(&s).unwrap_err(),
        ConfigError::RowWidth { table: 3, found: ROW_WIDTH + 11 }
    );
}

#[test]
fn validate_rejects_short_table() {
    let mut s = good_shapes();
    s[4].0 = 255;
    s[6].0 = 3;
    assert_eq!(
        TableLayout::validate(&s).unwrap_err(),
        ConfigError::TooFewRows { table: 4, found: 255, needed: 256 }
    );
}

#[test]
fn feature_width_checked() {
    assert_eq!(check_feature_width(48), Ok(()));
    assert_eq!(check_feature_width(47), Err(ConfigError::FeatureWidth { found: 47 }));
}

#[test]
fn row_span_of_context() {
    let l = TableLayout::validate(&good_shapes()).unwrap();
    let c = context_after(&[1, 4]);
    assert_eq!(c.state, 3);
    let r = l.row_span(&c);
    assert_eq!(r.start, 3 * 245);
    assert_eq!(r.bias, 3 * 245 + 240);
    assert_eq!(r.end, 4 * 245);
    assert_eq!(BIAS_OFFSET, 240);
}

#[test]
fn order_keys_follow_float_order() {
    assert_eq!(order_key(0.0f32.to_bits()), 0x8000_0000);
    assert_eq!(key(-0.0), key(0.0));
    assert!(key(-1.0) < key(-0.5));
    assert!(key(-0.5) < key(0.0));
    assert!(key(0.25) < key(0.5));
    assert!(key(0.5) < key(3.0e38));
    assert_eq!(order_key(1), 0x8000_0001);
}

#[test]
fn first_max_takes_lowest_on_tie() {
    assert_eq!(first_max(&[1, 5, 5, 2, 0]), 1);
    assert_eq!(first_max(&[7, 7, 7, 7, 7]), 0);
    assert_eq!(first_max(&[0, 1, 2, 3, 9]), 4);
}

#[test]
fn greedy_labels_each_timestep() {
    let steps = [
        [0.1, 0.9, 0.0, 0.0, 0.0],
        [0.9, 0.1, 0.0, 0.0, 0.0],
        [0.0, 0.0, 0.0, 0.2, 0.8],
    ];
    let mut g = GreedyDecoder::new();
    for p in &steps {
        g.step(&keys5(*p));
    }
    assert_eq!(g.labels(), "ANT");
    assert_eq!(g.symbols(), &vec![1u8, 0, 4]);
    let c = g.context();
    assert_eq!(c.observed, 2);
    assert_eq!(c.state, 3);
}

#[test]
fn empty_input_gives_empty_output() {
    assert_eq!(run_greedy(&[]), "");
    let search = BeamSearch::new();
    let (seq, qual) = search.result(&vec![]);
    assert_eq!(seq, "");
    assert_eq!(qual, "");
}

#[test]
fn cut_admits_by_threshold() {
    let keys = vec![keys5([0.5, 0.5, 0.0, 0.0, 0.0])];
    let a = cut_extensions(&keys, key(0.5));
    // the blank must lie above the cut, a base may equal it
    assert_eq!(a[0], [false, true, false, false, false]);
    let b = cut_extensions(&keys, key(0.0));
    assert_eq!(b[0], [true; 5]);
}

#[test]
fn cut_keeps_one_extension_when_nothing_passes() {
    let keys = vec![keys5([0.1, 0.3, 0.2, 0.2, 0.2]), keys5([0.2, 0.2, 0.2, 0.2, 0.2])];
    let a = cut_extensions(&keys, key(0.9));
    assert_eq!(a[0], [false, true, false, false, false]);
    assert_eq!(a[1], [false; 5]);
}

#[test]
fn raising_cut_admits_no_more() {
    let keys = vec![keys5([0.1, 0.3, 0.2, 0.25, 0.15])];
    let mut last = usize::MAX;
    for cut in [0.0f32, 0.1, 0.15, 0.2, 0.25, 0.3, 0.5] {
        let n = cut_extensions(&keys, key(cut))[0].iter().filter(|x| **x).count();
        assert!(n <= last);
        last = n;
    }
    assert_eq!(last, 1);
}

#[test]
fn merge_groups_by_node() {
    let cands = vec![
        Candidate { source: 0, symbol: 0, node: 4 },
        Candidate { source: 0, symbol: 1, node: 7 },
        Candidate { source: 1, symbol: 2, node: 4 },
        Candidate { source: 1, symbol: 3, node: 2 },
    ];
    let plan = merge_candidates(&cands);
    assert_eq!(plan.nodes, vec![4, 7, 2]);
    assert_eq!(plan.group, vec![0, 1, 0, 2]);
    assert_eq!(plan.first, vec![0, 1, 3]);
}

#[test]
fn merged_masses_are_sums() {
    // a beam at the root and a beam at "A" both reach the node of "A":
    // the root by base A, the other by staying on blank.
    let mut search = BeamSearch::new();
    let mut masses = vec![(0.0f32, 1.0f32)];
    tick(&mut search, &mut masses, &[[0.5, 0.5, 0.0, 0.0, 0.0]], 0.25, 4);
    assert_eq!(search.live_count(), 2);
    let probs: Vec<[f32; 5]> = vec![[0.5, 0.5, 0.0, 0.0, 0.0]; 2];
    let keys: Vec<[u32; 5]> = probs.iter().map(|p| keys5(*p)).collect();
    let admitted = cut_extensions(&keys, key(0.25));
    let cands = search.expand(&admitted);
    let plan = merge_candidates(&cands);
    let mut hits = 0;
    for g in 0..plan.nodes.len() {
        let on_g: Vec<usize> = (0..cands.len()).filter(|&k| plan.group[k] == g).collect();
        if on_g.len() == 2 {
            hits += 1;
            let p = search.forest().backtrack(plan.nodes[g]);
            assert_eq!(p, vec![1u8]);
            let sum: f32 = on_g.iter().map(|&k| { let c = cands[k]; let (b, n) = masses[c.source]; (b + n) * probs[c.source][c.symbol as usize] }).sum();
            let expect = (masses[0].0 + masses[0].1) * 0.5 + (masses[1].0 + masses[1].1) * 0.5;
            assert_eq!(sum, expect);
        }
    }
    assert_eq!(hits, 1);
}

#[test]
fn rank_is_stable_and_truncated() {
    assert_eq!(rank_groups(&vec![5, 9, 5, 9, 1], 3), vec![1, 3, 0]);
    assert_eq!(rank_groups(&vec![2, 1], 5), vec![0, 1]);
    assert_eq!(rank_groups(&vec![], 2), Vec::<usize>::new());
}

#[test]
fn single_step_favouring_c_decodes_c() {
    let s = run_beam(&[[0.01, 0.01, 0.96, 0.01, 0.01]], 0.0, 2);
    assert_eq!(s, "C");
}

#[test]
fn greedy_and_beam_agree_on_clear_input() {
    let steps = [
        [0.02, 0.9, 0.03, 0.03, 0.02],
        [0.9, 0.02, 0.03, 0.03, 0.02],
        [0.02, 0.03, 0.03, 0.9, 0.02],
        [0.02, 0.03, 0.03, 0.02, 0.9],
        [0.9, 0.02, 0.03, 0.03, 0.02],
        [0.02, 0.03, 0.9, 0.03, 0.02],
    ];
    let greedy: String = run_greedy(&steps).chars().filter(|c| *c != 'N').collect();
    assert_eq!(greedy, "AGTC");
    for size in [1usize, 3, 8] {
        assert_eq!(run_beam(&steps, 0.001, size), greedy);
    }
}

#[test]
fn repeated_runs_agree() {
    let steps = [
        [0.3, 0.3, 0.2, 0.1, 0.1],
        [0.25, 0.25, 0.25, 0.2, 0.05],
        [0.1, 0.4, 0.4, 0.05, 0.05],
    ];
    assert_eq!(run_beam(&steps, 0.01, 4), run_beam(&steps, 0.01, 4));
    assert_eq!(run_greedy(&steps), run_greedy(&steps));
}

#[test]
fn renormalised_top_beam_has_unit_mass() {
    let mut search = BeamSearch::new();
    let mut masses = vec![(0.0f32, 1.0f32)];
    let p = [0.3, 0.3, 0.2, 0.1, 0.1];
    for _ in 0..3 {
        let probs: Vec<[f32; 5]> = (0..search.live_count()).map(|_| p).collect();
        tick(&mut search, &mut masses, &probs, 0.05, 3);
        assert!((masses[0].0 + masses[0].1 - 1.0).abs() < 1e-6);
        assert!(search.live_count() <= 3);
    }
}

#[test]
fn beam_result_lengths_match() {
    let mut search = BeamSearch::new();
    let mut masses = vec![(0.0f32, 1.0f32)];
    for p in [[0.1, 0.8, 0.05, 0.03, 0.02], [0.1, 0.05, 0.05, 0.7, 0.1]] {
        let probs: Vec<[f32; 5]> = (0..search.live_count()).map(|_| p).collect();
        tick(&mut search, &mut masses, &probs, 0.01, 2);
    }
    let lineage = search.best_lineage();
    assert_eq!(lineage.len(), 2);
    let q: Vec<u32> = lineage.iter().map(|_| 7).collect();
    let (seq, qual) = search.result(&q);
    assert_eq!(seq, "AG");
    assert_eq!(qual, "((");
}

#[test]
fn quality_characters() {
    assert_eq!(quality_char(0), '!');
    assert_eq!(quality_char(40), 'I');
    assert_eq!(quality_char(93), '~');
    assert_eq!(quality_char(5000), '~');
    assert_eq!(quality_to_string(&vec![0, 10, 20]), "!+5");
}

#[test]
fn symbols_as_text() {
    assert_eq!(symbols_to_string(&vec![0, 1, 2, 3, 4]), "NACGT");
    assert_eq!(symbols_to_string(&vec![]), "");
}
