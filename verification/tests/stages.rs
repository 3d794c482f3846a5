use strategy_discovery::discovery::config::CorpusError;
use strategy_discovery::discovery::stages::{all_stages, select_stages, stage_list, Stage};

fn names(v: &[&str]) -> Vec<String> {
    v.iter().map(|s| s.to_string()).collect()
}

#[test]
fn stages_run_in_canonical_order_whatever_the_listing() {
    let a = select_stages(&names(&["report", "generate"])).unwrap();
    let b = select_stages(&names(&["generate", "report", "generate"])).unwrap();
    assert_eq!(a, vec![Stage::Generate, Stage::Report]);
    assert_eq!(a, b);
    let all = select_stages(&names(&["analyze", "report", "annotate", "generate"])).unwrap();
    assert_eq!(all, all_stages());
    assert_eq!(stage_list(&all), "generate,annotate,analyze,report");
    assert_eq!(stage_list(&a), "generate,report");
}

#[test]
fn an_unknown_stage_is_refused() {
    assert_eq!(
        select_stages(&names(&["annotate", "mine", "x"])),
        Err(CorpusError::Config(
            "unknown stage `mine`; stages are: generate, annotate, analyze, report".to_string()
        ))
    );
    assert_eq!(select_stages(&[]), Ok(vec![]));
}
