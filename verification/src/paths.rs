//! Input-file locations: the relative paths of a day's input and test-input
//! files, to be resolved against the repository root by the caller.

use vstd::prelude::*;
use vstd::string::StringExecFns;

verus! {

/// The relative path `<first_dir>/day<day>/input<task>.txt`.
fn common_input(first_dir: &str, day: &str, task: &str) -> (r: String)
    ensures
        r@ == first_dir@ + "/day"@ + day@ + "/input"@ + task@ + ".txt"@,
{
    let mut path = first_dir.to_owned();
    path.append("/day");
    path.append(day);
    path.append("/input");
    path.append(task);
    path.append(".txt");
    path
}

/// The relative path of the real input of a day's task, under `data`.
pub fn input(day: &str, task: &str) -> (r: String)
    ensures
        r@ == "data"@ + "/day"@ + day@ + "/input"@ + task@ + ".txt"@,
{
    common_input("data", day, task)
}

/// The relative path of the test input of a day's task, under `test_data`.
pub fn test_input(day: &str, task: &str) -> (r: String)
    ensures
        r@ == "test_data"@ + "/day"@ + day@ + "/input"@ + task@ + ".txt"@,
{
    common_input("test_data", day, task)
}

} // verus!
