//! Tests that run inside the kernel.
use vstd::prelude::*;

verus! {

/// Why a kernel test failed.
#[derive(Clone, Copy, PartialEq, Eq, Debug)]
pub struct TestError(pub &'static str);

/// How a kernel test ended.
#[derive(Clone, Copy, PartialEq, Eq, Debug)]
pub enum TestResult {
    /// The test passed.
    Passed,
    /// The test failed, and says why.
    Failed(TestError),
    /// The test is expected to fail.
    ShouldFail,
}

/// A test that runs inside the kernel.
pub trait KernelTest {
    fn ktest(&self) -> TestResult;
}

/// Runs the tests in order: their results, one for each test.
pub fn test_runner<T: KernelTest>(tests: &[T]) -> (r: Vec<TestResult>)
    ensures
        r@.len() == tests@.len(),
{
    let mut r: Vec<TestResult> = Vec::new();
    let n = tests.len();
    let mut i: usize = 0;
    while i < n
        invariant
            i <= n,
            n == tests@.len(),
            r@.len() == i,
        decreases n - i,
    {
        r.push(tests[i].ktest());
        i = i + 1;
    }
    r
}

} // verus!
