use moss_model::engine::ExecutionProvider::{CoreMl, Cpu, Cuda, DirectMl, Nnapi, TensorRt};
use moss_model::engine::{
    common_session_options, execution_providers, thread_count, ExecutionProvider, OptimizationLevel,
    Platform,
};

#[test]
fn each_platform_has_its_providers_and_the_cpu_last() {
    for tensorrt in [false, true] {
        assert_eq!(execution_providers(Platform::Android, tensorrt), vec![Nnapi, Cpu]);
        assert_eq!(execution_providers(Platform::Apple, tensorrt), vec![CoreMl, Cpu]);
        assert_eq!(execution_providers(Platform::Windows, tensorrt), vec![Cuda, DirectMl, Cpu]);
        assert_eq!(execution_providers(Platform::Other, tensorrt), vec![Cpu]);
    }
    assert_eq!(execution_providers(Platform::Linux, false), vec![Cuda, Cpu]);
    assert_eq!(execution_providers(Platform::Linux, true), vec![Cuda, TensorRt, Cpu]);
}

#[test]
fn there_is_a_thread_for_each_processor_and_never_none() {
    assert_eq!(thread_count(0), 1);
    assert_eq!(thread_count(1), 1);
    assert_eq!(thread_count(8), 8);
    assert_eq!(thread_count(usize::MAX), usize::MAX);
}

#[test]
fn the_common_options_follow_the_machine() {
    let options = common_session_options(Platform::Linux, true);
    let expected = num_cpus::get().max(1);
    assert_eq!(options.inter_threads, expected);
    assert_eq!(options.intra_threads, expected);
    assert_eq!(options.optimization, OptimizationLevel::All);
    assert_eq!(
        options.providers,
        vec![ExecutionProvider::Cuda, ExecutionProvider::TensorRt, ExecutionProvider::Cpu]
    );
}
