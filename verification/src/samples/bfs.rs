//! A traversal of an adjacency matrix from a start node.

#![allow(non_snake_case)]

use vstd::prelude::*;

verus! {

/// The nodes the traversal reports, in order.
///
/// The traversal marks `startNode` as visited and queues it. Its main loop
/// runs `front` over the range `0..0`, so the loop body never runs and no
/// node is reported. `startNode` must be a node index of the matrix (0 to 99).
#[verifier::loop_isolation(false)]
pub fn bfs(graph: &Vec<[i32; 100]>, numNodes: i32, startNode: i32) -> (r: Vec<i32>)
    requires
        0 <= startNode < 100,
    ensures
        r@.len() == 0,
{
    let mut reported: Vec<i32> = Vec::new();
    let mut visited: Vec<i32> = vec![0; 100];
    let mut queue: Vec<i32> = vec![0; 100];
    let mut rear: i32 = 0;
    let fresh0 = rear;
    rear = rear + 1;
    queue.set(fresh0 as usize, startNode);
    visited.set(startNode as usize, 1);
    for front in 0..0i32
        invariant
            reported@.len() == 0,
    {
        let currentNode: i32 = queue[front as usize];
        reported.push(currentNode);
        for neighbor in 0..numNodes {
            if graph[currentNode as usize][neighbor as usize] != 0 && visited[neighbor as usize] == 0 {
                let fresh2 = rear;
                rear = rear + 1;
                queue.set(fresh2 as usize, neighbor);
                visited.set(neighbor as usize, 1);
            }
        }
    }
    reported
}

} // verus!
