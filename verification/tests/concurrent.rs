use secure_pipeline::concurrent::{ConcurrentPipeline, PipelineConfig, ResultCollector};
use secure_pipeline::pipeline::PipelineError;
use secure_pipeline::validation::ValidationError;

#[test]
fn default_config_has_four_workers() {
    assert_eq!(PipelineConfig::default().workers, 4);
}

#[test]
fn worker_count_is_bounded_by_jobs_and_at_least_one() {
    let pipeline = ConcurrentPipeline::new(PipelineConfig { workers: 3 });
    assert_eq!(pipeline.worker_count(4), 3);
    assert_eq!(pipeline.worker_count(2), 2);
    let zero = ConcurrentPipeline::new(PipelineConfig { workers: 0 });
    assert_eq!(zero.worker_count(5), 1);
}

#[test]
fn jobs_go_round_robin() {
    let targets: Vec<usize> = (0..7).map(|job| ConcurrentPipeline::worker_for_job(job, 3)).collect();
    assert_eq!(targets, vec![0, 1, 2, 0, 1, 2, 0]);
}

#[test]
fn collector_restores_job_order() {
    let mut collector = ResultCollector::new(3);
    assert!(!collector.is_complete());
    assert!(collector.record(2, Ok("c".to_string())));
    assert!(collector.record(0, Ok("a".to_string())));
    assert!(!collector.record(2, Ok("late".to_string())));
    assert!(collector.record(1, Err(PipelineError::NonAsciiInput)));
    assert!(collector.is_complete());
    assert_eq!(
        collector.finish(),
        vec![Ok("a".to_string()), Err(PipelineError::NonAsciiInput), Ok("c".to_string())]
    );
}

#[test]
fn collector_fills_missing_results() {
    let mut collector = ResultCollector::new(2);
    assert!(collector.record(1, Ok("b".to_string())));
    assert_eq!(
        collector.finish(),
        vec![Err(PipelineError::Validation(ValidationError::EmptyInput)), Ok("b".to_string())]
    );
}

#[test]
fn empty_batch_is_complete() {
    let collector = ResultCollector::new(0);
    assert!(collector.is_complete());
    assert!(collector.finish().is_empty());
}
